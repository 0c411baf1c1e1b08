//! The XLM→USDC mark used to convert Soroban XLM fees into USDC base units.

use vstd::prelude::*;

verus! {

/// Lowest accepted mark (USDC units per 1.0 XLM, 7 decimals): $0.05.
pub const MIN_PRICE_E7: u128 = 500_000;

/// Highest accepted mark: $1.00.
pub const MAX_PRICE_E7: u128 = 10_000_000;

/// `v` capped at `u64::MAX`.
pub open spec fn clamp_u64_value(v: u128) -> u64 {
    if v > u64::MAX {
        u64::MAX
    } else {
        v as u64
    }
}

fn clamp_u64(v: u128) -> (r: u64)
    ensures
        r == clamp_u64_value(v),
{
    if v > u64::MAX as u128 {
        u64::MAX
    } else {
        v as u64
    }
}

/// A quoted mark outside the sanity band; the previous mark is kept.
#[derive(Debug, Clone, Copy, PartialEq, Eq, Structural)]
pub struct MarkOutOfBand {
    pub quoted_e7: u128,
}

/// Shared XLM/USDC price used by USDC-base fee gates.
#[derive(Debug)]
pub struct XlmUsdcPrice {
    price_e7: u64,
    fallback_e7: u64,
}

impl XlmUsdcPrice {
    pub closed spec fn mark(&self) -> u64 {
        self.price_e7
    }

    pub closed spec fn fallback_mark(&self) -> u64 {
        self.fallback_e7
    }

    /// The mark is the fallback or a quote inside the sanity band.
    pub open spec fn mark_sane(&self) -> bool {
        self.mark() == self.fallback_mark() || MIN_PRICE_E7 <= self.mark() <= MAX_PRICE_E7
    }

    /// Start at the fallback mark (at least 1, capped at `u64::MAX`).
    pub fn new(fallback_e7: u128) -> (r: Self)
        ensures
            r.mark() == clamp_u64_value(if fallback_e7 >= 1 { fallback_e7 } else { 1 }),
            r.fallback_mark() == r.mark(),
            r.mark_sane(),
    {
        let fallback = clamp_u64(
            if fallback_e7 >= 1 {
                fallback_e7
            } else {
                1
            },
        );
        XlmUsdcPrice { price_e7: fallback, fallback_e7: fallback }
    }

    pub fn get(&self) -> (r: u128)
        ensures
            r == self.mark(),
    {
        self.price_e7 as u128
    }

    pub fn fallback(&self) -> (r: u128)
        ensures
            r == self.fallback_mark(),
    {
        self.fallback_e7 as u128
    }

    /// Take a freshly quoted mark for 1.0 XLM: kept when inside
    /// [`MIN_PRICE_E7`, `MAX_PRICE_E7`], refused (and the mark unchanged)
    /// otherwise.
    pub fn apply_quote(&mut self, quoted_e7: u128) -> (r: Result<u128, MarkOutOfBand>)
        ensures
            final(self).fallback_mark() == old(self).fallback_mark(),
            old(self).mark_sane() ==> final(self).mark_sane(),
            MIN_PRICE_E7 <= quoted_e7 <= MAX_PRICE_E7 ==> r == Ok::<u128, MarkOutOfBand>(quoted_e7)
                && final(self).mark() == quoted_e7,
            !(MIN_PRICE_E7 <= quoted_e7 <= MAX_PRICE_E7) ==> r == Err::<u128, MarkOutOfBand>(
                MarkOutOfBand { quoted_e7 },
            ) && final(self).mark() == old(self).mark(),
    {
        if quoted_e7 < MIN_PRICE_E7 || quoted_e7 > MAX_PRICE_E7 {
            return Err(MarkOutOfBand { quoted_e7 });
        }
        self.price_e7 = clamp_u64(quoted_e7);
        Ok(quoted_e7)
    }
}

} // verus!
