//! Coin-flow partition of the supply into a mobile and an immobile part.

use vstd::prelude::*;
use crate::cumulative_rolling::{lemma_running_total_monotone, running_total};

verus! {

/// Satoshis in one bitcoin.
pub const ONE_BTC_SATS: u64 = 100_000_000;

/// The realized price of a capitalisation over a supply: cents per bitcoin,
/// rounded down; zero for an empty supply.
pub open spec fn spec_realized_price(cap: int, supply: int) -> int {
    if supply == 0 {
        0
    } else {
        (cap * ONE_BTC_SATS) / supply
    }
}

/// Realized price (cents per bitcoin) of `cap` cents spread over `supply` sats.
pub fn realized_price(cap: u64, supply: u64) -> (price: u64)
    requires
        spec_realized_price(cap as int, supply as int) <= u64::MAX,
    ensures
        price == spec_realized_price(cap as int, supply as int),
        supply == 0 ==> price == 0,
        supply > 0 ==> price * supply <= cap * 100_000_000int < (price + 1) * supply,
{
    let scaled: u128 = (cap as u128) * (ONE_BTC_SATS as u128);
    proof {
        if supply > 0 {
            let n: int = cap * 100_000_000int;
            let d: int = supply as int;
            let q: int = n / d;
            assert(q * d <= n < (q + 1) * d) by (nonlinear_arith)
                requires
                    d > 0,
                    q == n / d,
            ;
        }
    }
    match scaled.checked_div(supply as u128) {
        Some(price) => price as u64,
        None => 0,
    }
}

/// The two sides of the coin-flow partition.
pub struct Split<T> {
    pub mobile: T,
    pub immobile: T,
}

/// One value per look-ahead horizon, longest first.
#[derive(Clone, Copy)]
pub struct Horizons<T> {
    pub _8y: T,
    pub _4y: T,
    pub _2y: T,
    pub _1y: T,
    pub _6m: T,
    pub _3m: T,
    pub _1m: T,
}

/// Number of horizons.
pub const HORIZON_COUNT: usize = 7;

impl<T> Horizons<T> {
    /// The horizons in order, longest first.
    pub open spec fn spec_values(&self) -> Seq<T> {
        seq![self._8y, self._4y, self._2y, self._1y, self._6m, self._3m, self._1m]
    }

    /// References to the horizons, longest first.
    pub fn as_array(&self) -> (values: [&T; 7])
        ensures
            values@.map_values(|v: &T| *v) == self.spec_values(),
    {
        let values = [&self._8y, &self._4y, &self._2y, &self._1y, &self._6m, &self._3m, &self._1m];
        proof {
            assert(values@.map_values(|v: &T| *v) =~= self.spec_values());
        }
        values
    }

    /// Mutable references to the horizons, longest first.
    pub fn as_mut_array(&mut self) -> (values: [&mut T; 7])
        ensures
            *values@[0] == old(self)._8y,
            *values@[1] == old(self)._4y,
            *values@[2] == old(self)._2y,
            *values@[3] == old(self)._1y,
            *values@[4] == old(self)._6m,
            *values@[5] == old(self)._3m,
            *values@[6] == old(self)._1m,
            *final(self) == (Horizons {
                _8y: *final(values@[0]),
                _4y: *final(values@[1]),
                _2y: *final(values@[2]),
                _1y: *final(values@[3]),
                _6m: *final(values@[4]),
                _3m: *final(values@[5]),
                _1m: *final(values@[6]),
            }),
    {
        [
            &mut self._8y,
            &mut self._4y,
            &mut self._2y,
            &mut self._1y,
            &mut self._6m,
            &mut self._3m,
            &mut self._1m,
        ]
    }
}

/// Sum of `totals[i] - mobiles[i]` over `i < n`.
pub open spec fn immobile_total(totals: Seq<u64>, mobiles: Seq<u64>, n: int) -> int
    decreases n,
{
    if n <= 0 {
        0
    } else {
        immobile_total(totals, mobiles, n - 1) + totals[n - 1] - mobiles[n - 1]
    }
}

pub proof fn lemma_immobile_total_monotone(totals: Seq<u64>, mobiles: Seq<u64>, i: int, j: int)
    requires
        0 <= i <= j <= totals.len(),
        totals.len() == mobiles.len(),
        forall|k: int| 0 <= k < totals.len() ==> #[trigger] mobiles[k] <= totals[k],
    ensures
        immobile_total(totals, mobiles, i) <= immobile_total(totals, mobiles, j),
    decreases j,
{
    if j > i {
        lemma_immobile_total_monotone(totals, mobiles, i, j - 1);
        assert(mobiles[j - 1] <= totals[j - 1]);
    }
}

/// The coin-flow partition of one block, over every age cohort.
pub struct CoinflowBlock {
    /// Each cohort's supply, split.
    pub cohorts: Vec<Split<u64>>,
    /// The whole supply, split.
    pub supply: Split<u64>,
    /// Capitalisation of the mobile supply, in cents.
    pub cap: u64,
    /// Realized price of the mobile supply, in cents per bitcoin.
    pub price: u64,
}

/// Splits every cohort's supply into its mobile part (given) and the rest,
/// and totals the mobile supply, the immobile supply and the mobile
/// capitalisation, with the mobile supply's realized price.
pub fn partition_cohorts(total_supplies: &[u64], mobile_supplies: &[u64], mobile_caps: &[u64]) -> (block: CoinflowBlock)
    requires
        mobile_supplies@.len() == total_supplies@.len(),
        mobile_caps@.len() == total_supplies@.len(),
        forall|i: int|
            0 <= i < total_supplies@.len() ==> #[trigger] mobile_supplies@[i] <= total_supplies@[i],
        running_total(mobile_supplies@, mobile_supplies@.len() as int) <= u64::MAX,
        immobile_total(total_supplies@, mobile_supplies@, total_supplies@.len() as int) <= u64::MAX,
        running_total(mobile_caps@, mobile_caps@.len() as int) <= u64::MAX,
        spec_realized_price(
            running_total(mobile_caps@, mobile_caps@.len() as int),
            running_total(mobile_supplies@, mobile_supplies@.len() as int),
        ) <= u64::MAX,
    ensures
        block.cohorts@.len() == total_supplies@.len(),
        forall|i: int|
            0 <= i < total_supplies@.len() ==> (#[trigger] block.cohorts@[i]).mobile
                == mobile_supplies@[i] && block.cohorts@[i].immobile == total_supplies@[i]
                - mobile_supplies@[i],
        block.supply.mobile == running_total(mobile_supplies@, mobile_supplies@.len() as int),
        block.supply.immobile == immobile_total(
            total_supplies@,
            mobile_supplies@,
            total_supplies@.len() as int,
        ),
        block.cap == running_total(mobile_caps@, mobile_caps@.len() as int),
        block.price == spec_realized_price(block.cap as int, block.supply.mobile as int),
{
    let n = total_supplies.len();
    let mut cohorts: Vec<Split<u64>> = Vec::new();
    let mut mobile_supply: u64 = 0;
    let mut immobile_supply: u64 = 0;
    let mut coinflow_cap: u64 = 0;
    let mut i: usize = 0;
    while i < n
        invariant
            n == total_supplies@.len(),
            mobile_supplies@.len() == n,
            mobile_caps@.len() == n,
            forall|k: int| 0 <= k < n ==> #[trigger] mobile_supplies@[k] <= total_supplies@[k],
            running_total(mobile_supplies@, n as int) <= u64::MAX,
            immobile_total(total_supplies@, mobile_supplies@, n as int) <= u64::MAX,
            running_total(mobile_caps@, n as int) <= u64::MAX,
            i <= n,
            cohorts@.len() == i,
            forall|k: int|
                0 <= k < i ==> (#[trigger] cohorts@[k]).mobile == mobile_supplies@[k]
                    && cohorts@[k].immobile == total_supplies@[k] - mobile_supplies@[k],
            mobile_supply == running_total(mobile_supplies@, i as int),
            immobile_supply == immobile_total(total_supplies@, mobile_supplies@, i as int),
            coinflow_cap == running_total(mobile_caps@, i as int),
        decreases n - i,
    {
        proof {
            lemma_running_total_monotone(mobile_supplies@, i + 1, n as int);
            lemma_running_total_monotone(mobile_caps@, i + 1, n as int);
            lemma_immobile_total_monotone(total_supplies@, mobile_supplies@, i + 1, n as int);
        }
        let mobile = mobile_supplies[i];
        let immobile = total_supplies[i] - mobile;
        cohorts.push(Split { mobile, immobile });
        mobile_supply = mobile_supply + mobile;
        immobile_supply = immobile_supply + immobile;
        coinflow_cap = coinflow_cap + mobile_caps[i];
        i = i + 1;
    }
    let price = realized_price(coinflow_cap, mobile_supply);
    CoinflowBlock { cohorts, supply: Split { mobile: mobile_supply, immobile: immobile_supply }, cap: coinflow_cap, price }
}

/// Every cohort's mobile and immobile supply add up to its whole supply, and
/// so do the totals.
pub proof fn lemma_partition_sums_to_supply(totals: Seq<u64>, mobiles: Seq<u64>, n: int)
    requires
        0 <= n <= totals.len(),
        totals.len() == mobiles.len(),
    ensures
        running_total(mobiles, n) + immobile_total(totals, mobiles, n) == running_total(totals, n),
    decreases n,
{
    if n > 0 {
        lemma_partition_sums_to_supply(totals, mobiles, n - 1);
    }
}

/// When every cohort's mobile capitalisation is at most its whole
/// capitalisation, so is the total.
pub proof fn lemma_coinflow_cap_bounded(mobile_caps: Seq<u64>, caps: Seq<u64>, n: int)
    requires
        0 <= n <= caps.len(),
        caps.len() == mobile_caps.len(),
        forall|i: int| 0 <= i < caps.len() ==> #[trigger] mobile_caps[i] <= caps[i],
    ensures
        running_total(mobile_caps, n) <= running_total(caps, n),
    decreases n,
{
    if n > 0 {
        lemma_coinflow_cap_bounded(mobile_caps, caps, n - 1);
        assert(mobile_caps[n - 1] <= caps[n - 1]);
    }
}

} // verus!
