//! Consensus parameters of each known chain.
use vstd::prelude::*;

use crate::network::Network;
use crate::uint::Uint256;

verus! {

/// The proof-of-work limit of the main chain and of the test chain, 2^236 - 1.
pub open spec fn pow_limit_main() -> nat {
    0x00000fff_ffffffff_ffffffff_ffffffff_ffffffff_ffffffff_ffffffff_ffffffffnat
}

/// The proof-of-work limit of the regression-test chain, 2^255 - 1.
pub open spec fn pow_limit_regtest() -> nat {
    0x7fffffff_ffffffff_ffffffff_ffffffff_ffffffff_ffffffff_ffffffff_ffffffffnat
}

/// A value whose lower three limbs are all ones is its top limb followed by 192 one bits.
proof fn lemma_limit_value(x: Uint256, top: u64, n: nat)
    requires
        x.0[0] == top,
        x.0[1] == 0xffffffffffffffff,
        x.0[2] == 0xffffffffffffffff,
        x.0[3] == 0xffffffffffffffff,
        n == (top as nat + 1) * 0x1_000000000000_0000_0000000000000000_0000000000000000nat - 1,
    ensures
        x.value() == n,
{
    let b = crate::uint::limb_base();
    assert(x.value() == ((top as nat * b + (b - 1)) * b + (b - 1)) * b + (b - 1));
    assert(((top as nat * b + (b - 1)) * b + (b - 1)) * b + (b - 1) == (top as nat + 1) * (b * b * b) - 1)
        by (nonlinear_arith) requires b > 0;
    assert(b * b * b == 0x1_000000000000_0000_0000000000000000_0000000000000000nat);
}

/// Parameters that influence chain consensus.
#[derive(Debug, Clone, Copy)]
pub struct Params {
    /// Network for which parameters are valid.
    pub network: Network,
    /// Time when BIP16 becomes active.
    pub bip16_time: u32,
    /// Block height at which BIP34 becomes active.
    pub bip34_height: u32,
    /// Block height at which BIP65 becomes active.
    pub bip65_height: u32,
    /// Block height at which BIP66 becomes active.
    pub bip66_height: u32,
    /// Minimum blocks including miner confirmation within a confirmation window,
    /// also used for BIP9 deployments.
    pub rule_change_activation_threshold: u32,
    /// Number of blocks with the same set of rules.
    pub miner_confirmation_window: u32,
    /// Proof of work limit value: the largest (easiest) target a block may carry.
    pub pow_limit: Uint256,
    /// Expected amount of time to mine one block, in seconds.
    pub pow_target_spacing: u64,
    /// Difficulty recalculation interval, in seconds.
    pub pow_target_timespan: u64,
    /// Determines whether minimal difficulty may be used for blocks or not.
    pub allow_min_difficulty_blocks: bool,
    /// Determines whether retargeting is disabled for this network or not.
    pub no_pow_retargeting: bool,
}

impl Params {
    /// The timespan is a positive whole number of block spacings.
    pub open spec fn wf(&self) -> bool {
        &&& self.pow_target_spacing > 0
        &&& self.pow_target_timespan >= self.pow_target_spacing
        &&& self.pow_target_timespan % self.pow_target_spacing == 0
    }

    /// Number of blocks between difficulty adjustments.
    pub open spec fn interval(&self) -> nat {
        (self.pow_target_timespan / self.pow_target_spacing) as nat
    }

    /// Whether `self` is the fixed parameter table of `network`.
    pub open spec fn is_table_of(&self, network: Network) -> bool {
        &&& self.network == network
        &&& self.bip16_time == 1333238400
        &&& match network {
            Network::Garlicoin => {
                &&& self.bip34_height == 0
                &&& self.bip65_height == 0
                &&& self.bip66_height == 0
                &&& self.rule_change_activation_threshold == 6048
                &&& self.miner_confirmation_window == 8064
                &&& self.pow_limit.value() == pow_limit_main()
                &&& self.pow_target_spacing == 40
                &&& self.pow_target_timespan == 3600
                &&& !self.allow_min_difficulty_blocks
                &&& !self.no_pow_retargeting
            },
            Network::Testnet => {
                &&& self.bip34_height == 76
                &&& self.bip65_height == 76
                &&& self.bip66_height == 76
                &&& self.rule_change_activation_threshold == 1512
                &&& self.miner_confirmation_window == 2016
                &&& self.pow_limit.value() == pow_limit_main()
                &&& self.pow_target_spacing == 40
                &&& self.pow_target_timespan == 3600
                &&& self.allow_min_difficulty_blocks
                &&& !self.no_pow_retargeting
            },
            Network::Regtest => {
                &&& self.bip34_height == 100000000
                &&& self.bip65_height == 1351
                &&& self.bip66_height == 1251
                &&& self.rule_change_activation_threshold == 108
                &&& self.miner_confirmation_window == 144
                &&& self.pow_limit.value() == pow_limit_regtest()
                &&& self.pow_target_spacing == 60
                &&& self.pow_target_timespan == 120960
                &&& self.allow_min_difficulty_blocks
                &&& self.no_pow_retargeting
            },
        }
    }

    /// Creates the parameter set of the given network.
    pub fn new(network: Network) -> (r: Self)
        ensures
            r.is_table_of(network),
            r.wf(),
    {
        let main_limit = Uint256::from_limbs(
            [0x00000fffffffffff, 0xffffffffffffffff, 0xffffffffffffffff, 0xffffffffffffffff],
        );
        let regtest_limit = Uint256::from_limbs(
            [0x7fffffffffffffff, 0xffffffffffffffff, 0xffffffffffffffff, 0xffffffffffffffff],
        );
        proof {
            lemma_limit_value(main_limit, 0x00000fffffffffff, pow_limit_main());
            lemma_limit_value(regtest_limit, 0x7fffffffffffffff, pow_limit_regtest());
        }
        match network {
            Network::Garlicoin => Params {
                network: Network::Garlicoin,
                bip16_time: 1333238400,  // Apr 1 2012
                bip34_height: 0,
                bip65_height: 0,
                bip66_height: 0,
                rule_change_activation_threshold: 6048,  // 75%
                miner_confirmation_window: 8064,
                pow_limit: main_limit,
                pow_target_spacing: 40,  // 40 seconds.
                pow_target_timespan: 60 * 60,  // 1 hour.
                allow_min_difficulty_blocks: false,
                no_pow_retargeting: false,
            },
            Network::Testnet => Params {
                network: Network::Testnet,
                bip16_time: 1333238400,  // Apr 1 2012
                bip34_height: 76,
                bip65_height: 76,
                bip66_height: 76,
                rule_change_activation_threshold: 1512,  // 75%
                miner_confirmation_window: 2016,
                pow_limit: main_limit,
                pow_target_spacing: 40,  // 40 seconds.
                pow_target_timespan: 60 * 60,  // 1 hour.
                allow_min_difficulty_blocks: true,
                no_pow_retargeting: false,
            },
            Network::Regtest => Params {
                network: Network::Regtest,
                bip16_time: 1333238400,  // Apr 1 2012
                bip34_height: 100000000,  // not activated on regtest
                bip65_height: 1351,
                bip66_height: 1251,  // used only in rpc tests
                rule_change_activation_threshold: 108,  // 75%
                miner_confirmation_window: 144,
                pow_limit: regtest_limit,
                pow_target_spacing: 60,  // 60 seconds.
                pow_target_timespan: 14 * 24 * 6 * 60,  // 1.4 days.
                allow_min_difficulty_blocks: true,
                no_pow_retargeting: true,
            },
        }
    }

    /// Calculates the number of blocks between difficulty adjustments.
    pub fn difficulty_adjustment_interval(&self) -> (r: u64)
        requires
            self.pow_target_spacing > 0,
        ensures
            r == self.pow_target_timespan / self.pow_target_spacing,
    {
        self.pow_target_timespan / self.pow_target_spacing
    }
}

} // verus!
