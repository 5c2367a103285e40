use garlicoin::network::Network;
use garlicoin::params::Params;
use garlicoin::pow::{calculate_next_target, check_proof_of_work, next_target_required};
use garlicoin::uint::Uint256;

fn legacy() -> Uint256 {
    Uint256::from_compact(0x1d00_ffff).unwrap()
}

#[test]
fn slow_window_is_clamped_to_four_times() {
    let p = Params::new(Network::Garlicoin);
    let prev = legacy();
    let next = calculate_next_target(&p, &prev, 1_000, 1_000 + 10 * 3600);
    assert_eq!(next, prev.mul_u64(4).0);
    assert_eq!(next, Uint256::from_limbs([0x0000_0003_fffc_0000, 0, 0, 0]));
}

#[test]
fn slow_window_never_exceeds_limit() {
    let p = Params::new(Network::Garlicoin);
    let prev = Uint256::from_limbs([0x0000_0800_0000_0000, 0, 0, 0]);
    assert_eq!(calculate_next_target(&p, &prev, 0, 10 * 3600), p.pow_limit);
    let huge = Uint256::from_limbs([u64::MAX, u64::MAX, u64::MAX, u64::MAX]);
    assert_eq!(calculate_next_target(&p, &huge, 0, 3600), p.pow_limit);
}

#[test]
fn fast_window_is_clamped_to_a_quarter() {
    let p = Params::new(Network::Garlicoin);
    let prev = legacy();
    assert_eq!(calculate_next_target(&p, &prev, 500, 500), prev.div_rem_u64(0, 4).0);
    assert_eq!(calculate_next_target(&p, &prev, 900, 100), prev.div_rem_u64(0, 4).0);
}

#[test]
fn on_time_window_keeps_target() {
    let p = Params::new(Network::Garlicoin);
    let prev = legacy();
    assert_eq!(calculate_next_target(&p, &prev, 0, 3600), prev);
    let half = calculate_next_target(&p, &prev, 0, 1800);
    assert_eq!(half, prev.div_rem_u64(0, 2).0);
}

#[test]
fn min_difficulty_relief_on_testnet() {
    let p = Params::new(Network::Testnet);
    let prev = legacy();
    assert_eq!(next_target_required(&p, 95, 1_081, 1_000, &prev, 0), p.pow_limit);
    assert_eq!(next_target_required(&p, 90, 1_081, 1_000, &prev, 0), p.pow_limit);
    assert_eq!(next_target_required(&p, 95, 1_080, 1_000, &prev, 0), prev);
}

#[test]
fn no_relief_on_mainnet() {
    let p = Params::new(Network::Garlicoin);
    let prev = legacy();
    assert_eq!(next_target_required(&p, 95, 100_000, 1_000, &prev, 0), prev);
}

#[test]
fn retarget_only_on_interval_heights() {
    let p = Params::new(Network::Garlicoin);
    let prev = legacy();
    assert_eq!(next_target_required(&p, 180, 1_850, 1_800, &prev, 0), prev.div_rem_u64(0, 2).0);
    assert_eq!(next_target_required(&p, 180, 7_300, 7_200, &prev, 0), prev.mul_u64(2).0);
    assert_eq!(next_target_required(&p, 181, 7_300, 7_200, &prev, 0), prev);
}

#[test]
fn regtest_always_at_limit() {
    let p = Params::new(Network::Regtest);
    let prev = legacy();
    for h in [0u64, 1, 2015, 2016, 4032, u64::MAX] {
        assert_eq!(next_target_required(&p, h, 10, 9, &prev, 0), p.pow_limit);
    }
}

#[test]
fn proof_of_work_check() {
    let p = Params::new(Network::Garlicoin);
    let target = legacy();
    let low_hash = Uint256::from_u64(42);
    assert!(check_proof_of_work(&p, 0x1d00_ffff, &target, &low_hash));
    assert!(check_proof_of_work(&p, 0x1d00_ffff, &target, &target));
    let high_hash = Uint256::from_limbs([0x0000_0000_ffff_0000, 0, 0, 1]);
    assert!(!check_proof_of_work(&p, 0x1d00_ffff, &target, &high_hash));
    assert!(!check_proof_of_work(&p, 0x1c00_ffff, &target, &low_hash));
    assert!(!check_proof_of_work(&p, 0x1d80_ffff, &target, &low_hash));
    assert!(!check_proof_of_work(&p, 0xff00_ffff, &target, &low_hash));
    let above_limit = Uint256::from_compact(0x1f00_ffff).unwrap();
    assert!(!check_proof_of_work(&p, 0x1f00_ffff, &above_limit, &low_hash));
}
