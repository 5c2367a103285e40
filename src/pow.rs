//! Difficulty retargeting and the proof-of-work check of a block header.
use vstd::prelude::*;

use crate::network::Network;
use crate::params::{pow_limit_regtest, Params};
use crate::uint::{
    compact_negative, compact_value, lemma_value_bounds, uint256_bound, CompactError, Uint256,
};

verus! {

/// The elapsed time of a window, kept within a quarter and four times the
/// target timespan.
pub open spec fn clamped_timespan(target_timespan: nat, actual: int) -> nat {
    if actual < target_timespan / 4 {
        target_timespan / 4
    } else if actual > target_timespan * 4 {
        target_timespan * 4
    } else {
        actual as nat
    }
}

/// The target that follows `prev` after a window that took `actual` seconds:
/// scaled by the clamped timespan over the target timespan, and no easier than
/// the network's limit.
pub open spec fn retarget_value(params: Params, prev: nat, actual: int) -> nat {
    let t = params.pow_target_timespan as nat;
    let n = prev * clamped_timespan(t, actual) / t;
    if n > params.pow_limit.value() {
        params.pow_limit.value()
    } else {
        n
    }
}

/// The target a block at `height` must carry, given the time it claims, the
/// time and target of the block before it, and the time of the block that
/// opened the current adjustment window.
pub open spec fn required_target(
    params: Params,
    height: nat,
    new_time: nat,
    prev_time: nat,
    prev_target: nat,
    window_start_time: nat,
) -> nat {
    if params.no_pow_retargeting {
        params.pow_limit.value()
    } else if params.allow_min_difficulty_blocks && new_time > prev_time + 2
        * params.pow_target_spacing {
        params.pow_limit.value()
    } else if height % params.interval() == 0 {
        retarget_value(params, prev_target, prev_time - window_start_time)
    } else {
        prev_target
    }
}

/// Whether a header that declares `bits` and hashes to `hash` meets the
/// proof-of-work rule when `required` is the target owed at its height.
pub open spec fn pow_valid(params: Params, bits: u32, required: nat, hash: nat) -> bool {
    &&& !compact_negative(bits)
    &&& compact_value(bits) < uint256_bound()
    &&& compact_value(bits) <= params.pow_limit.value()
    &&& compact_value(bits) == required
    &&& hash <= compact_value(bits)
}

/// Computes the target after an adjustment window that opened at `first_time`
/// and closed at `last_time`, from the target `prev` in force during it.
pub fn calculate_next_target(params: &Params, prev: &Uint256, first_time: u32, last_time: u32) -> (r:
    Uint256)
    requires
        params.pow_target_timespan > 0,
    ensures
        r.value() == retarget_value(*params, prev.value(), last_time - first_time),
        r.value() <= params.pow_limit.value(),
{
    let t = params.pow_target_timespan;
    let lower: u64 = t / 4;
    let upper: u64 = if t > 0x3fff_ffff_ffff_ffff {
        0xffff_ffff_ffff_ffff
    } else {
        t * 4
    };
    let actual: i64 = last_time as i64 - first_time as i64;
    let span: u64 = if actual < lower as i64 {
        lower
    } else if actual as u64 > upper {
        upper
    } else {
        actual as u64
    };
    assert(span as nat == clamped_timespan(t as nat, last_time - first_time));
    let (prod, carry) = prev.mul_u64(span);
    let ghost exact = prev.value() * (span as nat);
    if carry >= t {
        proof {
            lemma_value_bounds(params.pow_limit);
            assert(exact >= (t as nat) * uint256_bound()) by (nonlinear_arith)
                requires exact == prod.value() + (carry as nat) * uint256_bound(), carry >= t;
            vstd::arithmetic::div_mod::lemma_div_is_ordered(
                (t as nat * uint256_bound()) as int, exact as int, t as int);
            vstd::arithmetic::div_mod::lemma_div_by_multiple(uint256_bound() as int, t as int);
            assert((t as nat * uint256_bound()) == uint256_bound() * (t as nat)) by (nonlinear_arith);
        }
        return params.pow_limit;
    }
    let (q, rem) = prod.div_rem_u64(carry, t);
    proof {
        vstd::arithmetic::div_mod::lemma_fundamental_div_mod_converse(
            exact as int, t as int, q.value() as int, rem as int);
    }
    if q.le(&params.pow_limit) {
        q
    } else {
        params.pow_limit
    }
}

/// Computes the target that a block at `height` must carry.
pub fn next_target_required(
    params: &Params,
    height: u64,
    new_time: u32,
    prev_time: u32,
    prev_target: &Uint256,
    window_start_time: u32,
) -> (r: Uint256)
    requires
        params.wf(),
    ensures
        r.value() == required_target(
            *params,
            height as nat,
            new_time as nat,
            prev_time as nat,
            prev_target.value(),
            window_start_time as nat,
        ),
{
    if params.no_pow_retargeting {
        return params.pow_limit;
    }
    if params.allow_min_difficulty_blocks && (new_time as u128) > (prev_time as u128) + 2
        * (params.pow_target_spacing as u128) {
        return params.pow_limit;
    }
    let interval = params.difficulty_adjustment_interval();
    proof {
        let sp = params.pow_target_spacing as int;
        vstd::arithmetic::div_mod::lemma_div_is_ordered(sp, params.pow_target_timespan as int, sp);
        vstd::arithmetic::div_mod::lemma_div_by_self(sp);
    }
    if height % interval == 0 {
        calculate_next_target(params, prev_target, window_start_time, prev_time)
    } else {
        *prev_target
    }
}

/// Checks a header's proof of work: its compact target must be valid, within
/// the network's limit, equal to the target owed at its height, and its hash
/// no greater than that target.
pub fn check_proof_of_work(params: &Params, bits: u32, required: &Uint256, hash: &Uint256) -> (r:
    bool)
    ensures
        r == pow_valid(*params, bits, required.value(), hash.value()),
{
    match Uint256::from_compact(bits) {
        Ok(target) => {
            if !target.le(&params.pow_limit) {
                return false;
            }
            if !(target.le(required) && required.le(&target)) {
                return false;
            }
            hash.le(&target)
        },
        Err(_) => false,
    }
}


/// A window that took four target timespans or more moves the target to four
/// times the previous one, or to the network's limit where that is lower.
pub proof fn lemma_retarget_clamps_slow_window(params: Params, prev: nat, actual: int)
    requires
        params.pow_target_timespan > 0,
        actual >= 4 * params.pow_target_timespan,
    ensures
        retarget_value(params, prev, actual) == if 4 * prev > params.pow_limit.value() {
            params.pow_limit.value()
        } else {
            4 * prev
        },
{
    let t = params.pow_target_timespan as int;
    assert(clamped_timespan(t as nat, actual) == (t * 4) as nat);
    assert(prev * (t * 4) == (4 * prev) * t) by (nonlinear_arith);
    vstd::arithmetic::div_mod::lemma_div_multiples_vanish((4 * prev) as int, t);
}

/// A window that took a quarter of the target timespan or less moves the
/// target to a quarter of the previous one, rounded down.
pub proof fn lemma_retarget_clamps_fast_window(params: Params, prev: nat, actual: int)
    requires
        params.pow_target_timespan > 0,
        params.pow_target_timespan % 4 == 0,
        actual <= params.pow_target_timespan / 4,
        prev <= params.pow_limit.value(),
    ensures
        retarget_value(params, prev, actual) == prev / 4,
{
    let t = params.pow_target_timespan as int;
    let q = t / 4;
    assert(clamped_timespan(t as nat, actual) == q);
    assert(t == q * 4);
    assert(prev * q == (prev * q) * 1);
    vstd::arithmetic::div_mod::lemma_div_denominator((prev * q) as int, q, 4);
    vstd::arithmetic::div_mod::lemma_div_multiples_vanish(prev as int, q);
    assert(prev * q == q * prev) by (nonlinear_arith);
    assert(q * 4 == t);
    vstd::arithmetic::div_mod::lemma_div_is_ordered((prev / 4) as int, prev as int, 1);
}

/// The target a retarget yields never exceeds the network's limit.
pub proof fn lemma_retarget_within_limit(params: Params, prev: nat, actual: int)
    ensures
        retarget_value(params, prev, actual) <= params.pow_limit.value(),
{
}

/// Where minimum-difficulty blocks are allowed, a block that comes more than
/// two spacings after its predecessor may carry the network's limit, at any
/// height.
pub proof fn lemma_min_difficulty_relief(
    params: Params,
    height: nat,
    new_time: nat,
    prev_time: nat,
    prev_target: nat,
    window_start_time: nat,
)
    requires
        params.allow_min_difficulty_blocks,
        new_time > prev_time + 2 * params.pow_target_spacing,
    ensures
        required_target(params, height, new_time, prev_time, prev_target, window_start_time)
            == params.pow_limit.value(),
{
}

/// On the regression-test chain every block is owed the network's limit.
pub proof fn lemma_regtest_target_is_limit(
    params: Params,
    height: nat,
    new_time: nat,
    prev_time: nat,
    prev_target: nat,
    window_start_time: nat,
)
    requires
        params.is_table_of(Network::Regtest),
    ensures
        required_target(params, height, new_time, prev_time, prev_target, window_start_time)
            == params.pow_limit.value(),
        params.pow_limit.value() == pow_limit_regtest(),
{
}

/// Each built-in chain's timespan is a whole number of spacings: 90 blocks on
/// the main and test chains, 2016 on the regression-test chain.
pub proof fn lemma_builtin_interval(params: Params, network: Network)
    requires
        params.is_table_of(network),
    ensures
        params.wf(),
        params.pow_target_timespan % params.pow_target_spacing == 0,
        params.interval() == match network {
            Network::Regtest => 2016nat,
            _ => 90nat,
        },
{
}

} // verus!
