use garlicoin::network::Network;
use garlicoin::params::Params;
use garlicoin::uint::Uint256;

#[test]
fn interval_of_each_network() {
    let main = Params::new(Network::Garlicoin);
    let test = Params::new(Network::Testnet);
    let reg = Params::new(Network::Regtest);
    for p in [&main, &test, &reg] {
        assert_eq!(p.pow_target_timespan % p.pow_target_spacing, 0);
    }
    assert_eq!(main.difficulty_adjustment_interval(), 90);
    assert_eq!(test.difficulty_adjustment_interval(), 90);
    assert_eq!(reg.difficulty_adjustment_interval(), 2016);
}

#[test]
fn parameter_table() {
    let main = Params::new(Network::Garlicoin);
    assert_eq!(main.network, Network::Garlicoin);
    assert_eq!(main.bip16_time, 1333238400);
    assert_eq!((main.bip34_height, main.bip65_height, main.bip66_height), (0, 0, 0));
    assert_eq!(main.rule_change_activation_threshold, 6048);
    assert_eq!(main.miner_confirmation_window, 8064);
    assert_eq!(
        main.pow_limit,
        Uint256::from_limbs([0x00000fffffffffff, u64::MAX, u64::MAX, u64::MAX])
    );
    assert_eq!((main.pow_target_spacing, main.pow_target_timespan), (40, 3600));
    assert!(!main.allow_min_difficulty_blocks && !main.no_pow_retargeting);

    let test = Params::new(Network::Testnet);
    assert_eq!(test.network, Network::Testnet);
    assert_eq!((test.bip34_height, test.bip65_height, test.bip66_height), (76, 76, 76));
    assert_eq!(test.rule_change_activation_threshold, 1512);
    assert_eq!(test.miner_confirmation_window, 2016);
    assert_eq!(test.pow_limit, main.pow_limit);
    assert!(test.allow_min_difficulty_blocks && !test.no_pow_retargeting);

    let reg = Params::new(Network::Regtest);
    assert_eq!(reg.network, Network::Regtest);
    assert_eq!((reg.bip34_height, reg.bip65_height, reg.bip66_height), (100000000, 1351, 1251));
    assert_eq!(reg.rule_change_activation_threshold, 108);
    assert_eq!(reg.miner_confirmation_window, 144);
    assert_eq!(
        reg.pow_limit,
        Uint256::from_limbs([0x7fffffffffffffff, u64::MAX, u64::MAX, u64::MAX])
    );
    assert_eq!((reg.pow_target_spacing, reg.pow_target_timespan), (60, 120960));
    assert!(reg.allow_min_difficulty_blocks && reg.no_pow_retargeting);
}
