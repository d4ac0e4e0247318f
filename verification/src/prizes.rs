//! The arithmetic of settlement: the commission that the platform keeps, the
//! three prize weights, and the share of the pool that a weight stands for.
//! Rates and weights are in basis points, ten thousand to the whole.

use vstd::prelude::*;
use vstd::arithmetic::div_mod::lemma_fundamental_div_mod;
use vstd::arithmetic::div_mod::lemma_hoist_over_denominator;

verus! {

/// Basis points in the whole.
pub const BASIS_POINTS: u64 = 10000;

/// The least commission rate that the platform accepts: ten percent.
pub const MIN_COMMISSION_RATE: u64 = 1000;

/// The least quorum that the platform accepts.
pub const MIN_QUORUM: u8 = 4;

/// The number of prize slots.
pub const PRIZE_SLOTS: usize = 3;

/// The first slot that settlement pays. The weights are meant for the first,
/// second and third place, yet payment starts at the second slot and the
/// second-ranked player: the best-ranked player and the largest weight are
/// passed over. Whether that is intended is an open question; the engine
/// keeps the behaviour in this one constant.
pub const FIRST_PAID_SLOT: usize = 1;

/// `weight` parts in `denominator` of `amount`, rounded down; zero where the
/// denominator is zero.
pub open spec fn scaled(amount: int, weight: int, denominator: int) -> int {
    if denominator == 0 {
        0
    } else {
        (weight * amount) / denominator
    }
}

/// Computes `scaled` without an intermediate product that could overflow.
pub fn scale(amount: u128, weight: u64, denominator: u64) -> (r: u128)
    requires
        weight <= denominator,
    ensures
        r == scaled(amount as int, weight as int, denominator as int),
        r <= amount,
{
    if denominator == 0 {
        return 0;
    }
    let d: u128 = denominator as u128;
    let w: u128 = weight as u128;
    let q: u128 = amount / d;
    let rem: u128 = amount % d;
    proof {
        let (a, di, wi, qi, ri) = (amount as int, d as int, w as int, q as int, rem as int);
        lemma_fundamental_div_mod(a, di);
        assert(a == di * qi + ri);
        assert(wi * a == wi * ri + (wi * qi) * di) by (nonlinear_arith)
            requires
                a == di * qi + ri,
        ;
        lemma_hoist_over_denominator(wi * ri, wi * qi, di as nat);
        assert((wi * a) / di == (wi * ri) / di + wi * qi);
        assert(wi * qi <= di * qi) by (nonlinear_arith)
            requires
                0 <= wi <= di,
                0 <= qi,
        ;
        assert(wi * ri <= di * ri && 0 <= wi * ri) by (nonlinear_arith)
            requires
                0 <= wi <= di,
                0 <= ri,
        ;
        assert(di * ri < 0x1_0000_0000_0000_0000 * 0x1_0000_0000_0000_0000) by (nonlinear_arith)
            requires
                0 <= ri < di,
                di < 0x1_0000_0000_0000_0000,
        ;
        assert((wi * ri) / di <= ri) by (nonlinear_arith)
            requires
                0 <= wi * ri <= di * ri,
                0 < di,
        ;
    }
    q * w + (rem * w) / d
}

/// The commission that the platform keeps of a pool of `total_stake` at
/// `rate` basis points: `rate * total_stake / 10000`, rounded down.
pub open spec fn commission_of(rate: u64, total_stake: u128) -> int {
    (rate as int * total_stake as int) / 10000
}

/// What is left of the pool for prizes once the commission is taken.
pub open spec fn payable_of(rate: u64, total_stake: u128) -> int {
    total_stake as int - commission_of(rate, total_stake)
}

/// The commission on `total_stake` at `rate` basis points.
pub fn commission(rate: u64, total_stake: u128) -> (r: u128)
    requires
        rate <= BASIS_POINTS,
    ensures
        r == commission_of(rate, total_stake),
        r <= total_stake,
{
    scale(total_stake, rate, BASIS_POINTS)
}

/// The three prize weights at commission rate `rate`: 50%, 34% and 16% of the
/// basis points that the commission leaves, each rounded down.
pub open spec fn prize_weights(rate: u64) -> Seq<u64> {
    let left = 10000 - rate as int;
    seq![((5 * left) / 10) as u64, ((34 * left) / 100) as u64, ((16 * left) / 100) as u64]
}

/// The prize weights at commission rate `rate`, first slot first.
pub fn position_prizes(rate: u64) -> (r: Vec<u64>)
    requires
        rate <= BASIS_POINTS,
    ensures
        r@ == prize_weights(rate),
{
    let left: u64 = BASIS_POINTS - rate;
    let mut r: Vec<u64> = Vec::with_capacity(3);
    r.push((5 * left) / 10);
    r.push((34 * left) / 100);
    r.push((16 * left) / 100);
    assert(r@ =~= prize_weights(rate));
    r
}

/// What the slot `slot` pays of a pool of `total_stake` at commission rate
/// `rate`: the slot's weight, taken as a part of the basis points that the
/// commission leaves, of what is payable. Zero where the commission leaves
/// nothing.
pub open spec fn prize_share(rate: u64, total_stake: u128, slot: int) -> int
    recommends
        rate <= 10000,
        0 <= slot < 3,
{
    scaled(payable_of(rate, total_stake), prize_weights(rate)[slot] as int, 10000 - rate as int)
}

/// The share of slot `slot`, see `prize_share`.
pub fn share(rate: u64, total_stake: u128, slot: usize) -> (r: u128)
    requires
        rate <= BASIS_POINTS,
        slot < PRIZE_SLOTS,
    ensures
        r == prize_share(rate, total_stake, slot as int),
        r <= payable_of(rate, total_stake),
{
    let payable: u128 = total_stake - commission(rate, total_stake);
    let weights = position_prizes(rate);
    scale(payable, weights[slot], BASIS_POINTS - rate)
}

/// The three weights sum to the basis points that the commission leaves, less
/// what rounding down takes: at most two, and nothing where the rest is a
/// multiple of fifty.
pub proof fn lemma_prize_weights_sum(rate: u64)
    requires
        rate <= 10000,
    ensures
        prize_weights(rate).len() == 3,
        10000 - rate - 2 <= prize_weights(rate)[0] + prize_weights(rate)[1] + prize_weights(
            rate,
        )[2] <= 10000 - rate,
        (10000 - rate) % 50 == 0 ==> prize_weights(rate)[0] + prize_weights(rate)[1]
            + prize_weights(rate)[2] == 10000 - rate,
{
}

/// The three shares together never exceed what is payable, so commission and
/// prizes together never exceed the pool.
pub proof fn lemma_shares_within_payable(rate: u64, total_stake: u128)
    requires
        rate <= 10000,
    ensures
        0 <= commission_of(rate, total_stake) <= total_stake,
        0 <= prize_share(rate, total_stake, 0),
        0 <= prize_share(rate, total_stake, 1),
        0 <= prize_share(rate, total_stake, 2),
        prize_share(rate, total_stake, 0) + prize_share(rate, total_stake, 1) + prize_share(
            rate,
            total_stake,
            2,
        ) <= payable_of(rate, total_stake),
{
    let t = total_stake as int;
    let r = rate as int;
    let left = 10000 - r;
    let c = commission_of(rate, total_stake);
    assert(0 <= c <= t) by (nonlinear_arith)
        requires
            c == (r * t) / 10000,
            0 <= r <= 10000,
            0 <= t,
    ;
    let p = t - c;
    let w0 = prize_weights(rate)[0] as int;
    let w1 = prize_weights(rate)[1] as int;
    let w2 = prize_weights(rate)[2] as int;
    lemma_prize_weights_sum(rate);
    if left > 0 {
        let s0 = (w0 * p) / left;
        let s1 = (w1 * p) / left;
        let s2 = (w2 * p) / left;
        assert(s0 >= 0 && s1 >= 0 && s2 >= 0 && s0 + s1 + s2 <= p) by (nonlinear_arith)
            requires
                s0 == (w0 * p) / left,
                s1 == (w1 * p) / left,
                s2 == (w2 * p) / left,
                0 <= w0,
                0 <= w1,
                0 <= w2,
                w0 + w1 + w2 <= left,
                0 < left,
                0 <= p,
        ;
    }
}

} // verus!
