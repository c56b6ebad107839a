//! Rarity-meter scores: where a price sits against ten percentile bands, five
//! lower (0.01% .. 5%) and five upper (95% .. 99.9%).

use vstd::prelude::*;

verus! {

/// Number of percentile bands per model.
pub const BAND_COUNT: usize = 10;

/// Number of lower bands; the rest are upper bands.
pub const LOWER_BAND_COUNT: usize = 5;

pub open spec fn indicator(b: bool) -> int {
    if b {
        1
    } else {
        0
    }
}

/// The bands at one block: entry `k` of `row` is band `k`'s price.
pub open spec fn row_at(bands: [Vec<u64>; 10], index: int) -> Seq<u64> {
    Seq::new(10, |k: int| bands[k]@[index])
}

/// Lower bands the price is under, counted down from below.
pub open spec fn lower_count(price: u64, row: Seq<u64>) -> int {
    indicator(price < row[0]) + indicator(price < row[1]) + indicator(price < row[2]) + indicator(
        price < row[3],
    ) + indicator(price < row[4])
}

/// Upper bands the price is over.
pub open spec fn upper_count(price: u64, row: Seq<u64>) -> int {
    indicator(price > row[5]) + indicator(price > row[6]) + indicator(price > row[7]) + indicator(
        price > row[8],
    ) + indicator(price > row[9])
}

/// The score of a price against one model's bands.
pub open spec fn band_score(price: u64, row: Seq<u64>) -> int {
    upper_count(price, row) - lower_count(price, row)
}

/// The sum of the scores against the first `n` models.
pub open spec fn score_sum(price: u64, components: Seq<[Vec<u64>; 10]>, index: int, n: int) -> int
    decreases n,
{
    if n <= 0 {
        0
    } else {
        score_sum(price, components, index, n - 1) + band_score(
            price,
            row_at(components[n - 1], index),
        )
    }
}

/// Every band of every model has an entry at `index`.
pub open spec fn bands_cover(components: Seq<[Vec<u64>; 10]>, index: int) -> bool {
    forall|c: int, k: int|
        0 <= c < components.len() && 0 <= k < 10 ==> index < (#[trigger] components[c][k])@.len()
}

/// The score of `price` at block `index`: the upper bands it exceeds minus
/// the lower bands it falls short of.
pub fn score_at(price: u64, bands: &[Vec<u64>; 10], index: usize) -> (score: i8)
    requires
        forall|k: int| 0 <= k < 10 ==> index < (#[trigger] bands[k])@.len(),
    ensures
        score == band_score(price, row_at(*bands, index as int)),
        -5 <= score <= 5,
{
    let ghost row = row_at(*bands, index as int);
    let mut lower: i8 = 0;
    let mut k: usize = 0;
    while k < LOWER_BAND_COUNT
        invariant
            k <= LOWER_BAND_COUNT,
            row == row_at(*bands, index as int),
            forall|t: int| 0 <= t < 10 ==> index < (#[trigger] bands[t])@.len(),
            lower == (if k > 0 {
                indicator(price < row[0])
            } else {
                0
            }) + (if k > 1 {
                indicator(price < row[1])
            } else {
                0
            }) + (if k > 2 {
                indicator(price < row[2])
            } else {
                0
            }) + (if k > 3 {
                indicator(price < row[3])
            } else {
                0
            }) + (if k > 4 {
                indicator(price < row[4])
            } else {
                0
            }),
        decreases LOWER_BAND_COUNT - k,
    {
        if price < bands[k][index] {
            lower = lower + 1;
        }
        k = k + 1;
    }
    let mut upper: i8 = 0;
    while k < BAND_COUNT
        invariant
            LOWER_BAND_COUNT <= k <= BAND_COUNT,
            row == row_at(*bands, index as int),
            forall|t: int| 0 <= t < 10 ==> index < (#[trigger] bands[t])@.len(),
            upper == (if k > 5 {
                indicator(price > row[5])
            } else {
                0
            }) + (if k > 6 {
                indicator(price > row[6])
            } else {
                0
            }) + (if k > 7 {
                indicator(price > row[7])
            } else {
                0
            }) + (if k > 8 {
                indicator(price > row[8])
            } else {
                0
            }) + (if k > 9 {
                indicator(price > row[9])
            } else {
                0
            }),
        decreases BAND_COUNT - k,
    {
        if price > bands[k][index] {
            upper = upper + 1;
        }
        k = k + 1;
    }
    upper - lower
}

/// The rarity score at block `index`: the sum over every model of its score.
pub fn total_score(price: u64, components: &[[Vec<u64>; 10]], index: usize) -> (total: i8)
    requires
        bands_cover(components@, index as int),
        forall|n: int|
            0 <= n <= components@.len() ==> -128 <= #[trigger] score_sum(
                price,
                components@,
                index as int,
                n,
            ) <= 127,
    ensures
        total == score_sum(price, components@, index as int, components@.len() as int),
{
    let mut total: i8 = 0;
    let mut c: usize = 0;
    while c < components.len()
        invariant
            c <= components@.len(),
            bands_cover(components@, index as int),
            forall|n: int|
                0 <= n <= components@.len() ==> -128 <= #[trigger] score_sum(
                    price,
                    components@,
                    index as int,
                    n,
                ) <= 127,
            total == score_sum(price, components@, index as int, c as int),
        decreases components@.len() - c,
    {
        let bands = &components[c];
        proof {
            assert forall|k: int| 0 <= k < 10 implies index < (#[trigger] bands[k])@.len() by {
                assert(components@[c as int][k] == bands[k]);
            }
        }
        let score = score_at(price, bands, index);
        proof {
            assert(score_sum(price, components@, index as int, c + 1) == total + score);
        }
        total = total + score;
        c = c + 1;
    }
    total
}

/// A higher price never scores lower against the same bands.
pub proof fn lemma_score_monotone(low: u64, high: u64, row: Seq<u64>)
    requires
        low <= high,
        row.len() == 10,
    ensures
        band_score(low, row) <= band_score(high, row),
{
}

/// A price inside every band (at or above all lower bands, at or below all
/// upper bands) scores zero.
pub proof fn lemma_score_zero_inside_bands(price: u64, row: Seq<u64>)
    requires
        row.len() == 10,
        forall|k: int| 0 <= k < 5 ==> row[k] <= price,
        forall|k: int| 5 <= k < 10 ==> price <= row[k],
    ensures
        band_score(price, row) == 0,
{
    assert(row[0] <= price && row[1] <= price && row[2] <= price && row[3] <= price && row[4]
        <= price);
    assert(price <= row[5] && price <= row[6] && price <= row[7] && price <= row[8] && price
        <= row[9]);
}

/// Each band counts once, by its own value at `index`: where two sets of
/// bands differ at `index` in band `k` alone, the scores differ by what band
/// `k` adds in each (a lower band takes one off while the price is under it,
/// an upper band adds one while the price is over it).
pub proof fn lemma_score_per_band(
    price: u64,
    bands: [Vec<u64>; 10],
    moved: [Vec<u64>; 10],
    index: int,
    k: int,
)
    requires
        0 <= k < 10,
        forall|t: int| 0 <= t < 10 ==> index < (#[trigger] bands[t])@.len(),
        forall|t: int| 0 <= t < 10 ==> index < (#[trigger] moved[t])@.len(),
        forall|t: int| 0 <= t < 10 && t != k ==> (#[trigger] bands[t])@[index] == moved[t]@[index],
    ensures
        band_score(price, row_at(moved, index)) - band_score(price, row_at(bands, index)) == (if k
            < 5 {
            (if price < bands[k]@[index] {
                1int
            } else {
                0int
            }) - (if price < moved[k]@[index] {
                1int
            } else {
                0int
            })
        } else {
            (if price > moved[k]@[index] {
                1int
            } else {
                0int
            }) - (if price > bands[k]@[index] {
                1int
            } else {
                0int
            })
        }),
{
    assert(bands[0]@[index] == row_at(bands, index)[0]);
    let a = row_at(bands, index);
    let b = row_at(moved, index);
    assert forall|t: int| 0 <= t < 10 implies #[trigger] a[t] == bands[t]@[index] && b[t]
        == moved[t]@[index] by {}
    assert(a[0] == bands[0]@[index] && a[1] == bands[1]@[index] && a[2] == bands[2]@[index] && a[3]
        == bands[3]@[index] && a[4] == bands[4]@[index]);
    assert(a[5] == bands[5]@[index] && a[6] == bands[6]@[index] && a[7] == bands[7]@[index] && a[8]
        == bands[8]@[index] && a[9] == bands[9]@[index]);
    assert(b[0] == moved[0]@[index] && b[1] == moved[1]@[index] && b[2] == moved[2]@[index] && b[3]
        == moved[3]@[index] && b[4] == moved[4]@[index]);
    assert(b[5] == moved[5]@[index] && b[6] == moved[6]@[index] && b[7] == moved[7]@[index] && b[8]
        == moved[8]@[index] && b[9] == moved[9]@[index]);
}

/// Bands that all sit at the price score zero against it; with
/// [`lemma_score_per_band`] this fixes every score: each lower band under
/// which the price falls takes one off, each upper band it exceeds adds one.
pub proof fn lemma_score_at_price(price: u64, bands: [Vec<u64>; 10], index: int)
    requires
        forall|t: int|
            0 <= t < 10 ==> index < (#[trigger] bands[t])@.len() && bands[t]@[index] == price,
    ensures
        band_score(price, row_at(bands, index)) == 0,
{
    let a = row_at(bands, index);
    assert forall|t: int| 0 <= t < 10 implies #[trigger] a[t] == price by {
        assert(bands[t]@[index] == price);
    }
    lemma_score_zero_inside_bands(price, a);
}

/// The total depends on the bands' entries at `index` alone: models that
/// agree there give the same total, whatever they hold at other blocks.
pub proof fn lemma_total_depends_on_index_only(
    price: u64,
    components: Seq<[Vec<u64>; 10]>,
    others: Seq<[Vec<u64>; 10]>,
    index: int,
    n: int,
)
    requires
        0 <= n <= components.len(),
        components.len() == others.len(),
        bands_cover(components, index),
        bands_cover(others, index),
        forall|c: int, k: int|
            0 <= c < components.len() && 0 <= k < 10 ==> (#[trigger] components[c][k])@[index]
                == others[c][k]@[index],
    ensures
        score_sum(price, components, index, n) == score_sum(price, others, index, n),
    decreases n,
{
    if n > 0 {
        lemma_total_depends_on_index_only(price, components, others, index, n - 1);
        assert(row_at(components[n - 1], index) =~= row_at(others[n - 1], index)) by {
            assert forall|k: int| 0 <= k < 10 implies #[trigger] row_at(components[n - 1], index)[k]
                == row_at(others[n - 1], index)[k] by {
                assert(components[n - 1][k]@[index] == others[n - 1][k]@[index]);
            }
        }
    }
}

/// Adding one model adds its score against its own bands at `index`, and
/// no model adds anything to an empty total.
pub proof fn lemma_total_adds_model(price: u64, components: Seq<[Vec<u64>; 10]>, index: int)
    requires
        components.len() > 0,
    ensures
        score_sum(price, components, index, 0) == 0,
        score_sum(price, components, index, components.len() as int) - score_sum(
            price,
            components,
            index,
            components.len() - 1,
        ) == band_score(
            price,
            Seq::new(10, |k: int| components[components.len() - 1][k]@[index]),
        ),
{
    let last = components[components.len() - 1];
    assert(row_at(last, index) =~= Seq::new(10, |k: int| last[k]@[index]));
}

/// The combined band `k` over models `rows[..n]`: the highest of the lower
/// bands (`k < 5`) and the lowest of the upper bands (`k >= 5`).
pub open spec fn envelope(rows: Seq<[u64; 10]>, k: int, n: int) -> u64
    decreases n,
{
    if n <= 1 {
        rows[0][k]
    } else {
        let rest = envelope(rows, k, n - 1);
        let value = rows[n - 1][k];
        if k < 5 {
            if value > rest {
                value
            } else {
                rest
            }
        } else {
            if value < rest {
                value
            } else {
                rest
            }
        }
    }
}

/// The tightest bands over every model at one block: each lower band is the
/// highest of the models' lower bands, each upper band the lowest of their
/// upper bands.
pub fn envelope_bands(rows: &[[u64; 10]]) -> (bands: [u64; 10])
    requires
        rows@.len() > 0,
    ensures
        forall|k: int| 0 <= k < 10 ==> #[trigger] bands@[k] == envelope(rows@, k, rows@.len() as int),
{
    let mut bands = rows[0];
    let mut c: usize = 1;
    while c < rows.len()
        invariant
            1 <= c <= rows@.len(),
            forall|k: int| 0 <= k < 10 ==> #[trigger] bands@[k] == envelope(rows@, k, c as int),
        decreases rows@.len() - c,
    {
        let row = rows[c];
        let mut k: usize = 0;
        while k < BAND_COUNT
            invariant
                1 <= c < rows@.len(),
                row == rows@[c as int],
                k <= BAND_COUNT,
                forall|t: int| 0 <= t < k ==> #[trigger] bands@[t] == envelope(rows@, t, c + 1),
                forall|t: int| k <= t < 10 ==> #[trigger] bands@[t] == envelope(rows@, t, c as int),
            decreases BAND_COUNT - k,
        {
            let current = bands[k];
            if k < LOWER_BAND_COUNT {
                if row[k] > current {
                    bands[k] = row[k];
                }
            } else {
                if row[k] < current {
                    bands[k] = row[k];
                }
            }
            k = k + 1;
        }
        c = c + 1;
    }
    bands
}

/// The combined bands are the tightest: no model's lower band is above the
/// combined one, no model's upper band is below it, and each combined band
/// is some model's band.
pub proof fn lemma_envelope_is_tightest(rows: Seq<[u64; 10]>, k: int, n: int)
    requires
        1 <= n <= rows.len(),
        0 <= k < 10,
    ensures
        forall|c: int| 0 <= c < n ==> if k < 5 {
            #[trigger] rows[c][k] <= envelope(rows, k, n)
        } else {
            envelope(rows, k, n) <= rows[c][k]
        },
        exists|c: int| 0 <= c < n && #[trigger] rows[c][k] == envelope(rows, k, n),
    decreases n,
{
    if n > 1 {
        lemma_envelope_is_tightest(rows, k, n - 1);
        if envelope(rows, k, n) == rows[n - 1][k] {
            assert(rows[n - 1][k] == envelope(rows, k, n));
        } else {
            let c = choose|c: int| 0 <= c < n - 1 && #[trigger] rows[c][k] == envelope(rows, k, n - 1);
            assert(rows[c][k] == envelope(rows, k, n));
        }
    } else {
        assert(rows[0][k] == envelope(rows, k, n));
    }
}

} // verus!
