//! The deviation calculator.
//!
//! The retrieved deviation texts and the size text are converted to exact
//! decimals; the average deviation is their exact midpoint rounded to six
//! fractional digits, half away from zero; and the three resulting sizes are
//! exact sums, rendered canonically with trailing zeros stripped.

use crate::decimal::{
    spec_dec_parse, spec_dec_string, spec_round_half_away, Decimal, DEC_UNITS_CAP, ROUND_STEP,
};
use vstd::prelude::*;

verus! {

/// The unit count of the average deviation of two unit counts: the exact
/// midpoint `(u + l) / 2`, rounded half away from zero to six fractional
/// digits (a multiple of `10^13` units).
pub open spec fn spec_avg_units(u: int, l: int) -> int {
    spec_round_half_away((u + l) / 2, ROUND_STEP as int)
}

/// The published form of the average, `lower + (upper - lower) / 2`, and the
/// midpoint `(upper + lower) / 2` agree exactly on even unit counts, so the
/// calculator's midpoint is the standard's formula with no rounding before
/// the final six-digit step.
pub proof fn lemma_average_formula(u: int, l: int)
    requires
        u % 2 == 0,
        l % 2 == 0,
    ensures
        l + (u - l) / 2 == (u + l) / 2,
{
    vstd::arithmetic::div_mod::lemma_fundamental_div_mod(u, 2);
    vstd::arithmetic::div_mod::lemma_fundamental_div_mod(u - l, 2);
    vstd::arithmetic::div_mod::lemma_fundamental_div_mod(u + l, 2);
    assert((u - l) % 2 == 0 && (u + l) % 2 == 0) by {
        vstd::arithmetic::div_mod::lemma_fundamental_div_mod(l, 2);
        assert(u - l == ((u / 2) - (l / 2)) * 2) by (nonlinear_arith)
            requires
                u == 2 * (u / 2),
                l == 2 * (l / 2),
        ;
        assert(u + l == ((u / 2) + (l / 2)) * 2) by (nonlinear_arith)
            requires
                u == 2 * (u / 2),
                l == 2 * (l / 2),
        ;
        vstd::arithmetic::div_mod::lemma_mod_multiples_basic((u / 2) - (l / 2), 2);
        vstd::arithmetic::div_mod::lemma_mod_multiples_basic((u / 2) + (l / 2), 2);
    }
}

/// Converts the size text and both deviation texts to exact decimals. A text
/// that is not a decimal literal yields nothing: a conversion error, distinct
/// from "not found" and fatal for the query alone.
pub fn size_tols_map_decimal(size: &str, tols: (&str, &str)) -> (r: Option<
    (Decimal, Decimal, Decimal),
>)
    ensures
        match r {
            Some(t) => spec_dec_parse(size@) == Some(t.0.units()) && spec_dec_parse(tols.0@)
                == Some(t.1.units()) && spec_dec_parse(tols.1@) == Some(t.2.units()) && t.0.wf()
                && t.1.wf() && t.2.wf(),
            None => spec_dec_parse(size@) is None || spec_dec_parse(tols.0@) is None
                || spec_dec_parse(tols.1@) is None,
        },
{
    let s = match Decimal::from_str(size) {
        Some(d) => d,
        None => {
            return None;
        },
    };
    let u = match Decimal::from_str(tols.0) {
        Some(d) => d,
        None => {
            return None;
        },
    };
    let l = match Decimal::from_str(tols.1) {
        Some(d) => d,
        None => {
            return None;
        },
    };
    Some((s, u, l))
}

/// The average deviation: `lower + (upper - lower) / 2`, which is the exact
/// midpoint of the two deviations, rounded to six fractional digits half away
/// from zero. This midpoint convention is load-bearing: it must not be
/// banker's rounding or truncation.
pub fn calc_average_tol(upper_tol: &Decimal, lower_tol: &Decimal) -> (r: Decimal)
    requires
        upper_tol.wf(),
        lower_tol.wf(),
    ensures
        r.units() == spec_avg_units(upper_tol.units(), lower_tol.units()),
        r.units() % (ROUND_STEP as int) == 0,
        -(DEC_UNITS_CAP as int) <= r.units() <= DEC_UNITS_CAP as int,
{
    let sum = upper_tol.add(lower_tol);
    proof {
        let x = sum.units();
        assert(x == 10 * (x / 10) + x % 10) by {
            vstd::arithmetic::div_mod::lemma_fundamental_div_mod(x, 10);
        }
        assert(x % 10 == 0) by {
            let a = upper_tol.units();
            let b = lower_tol.units();
            vstd::arithmetic::div_mod::lemma_fundamental_div_mod(a, 10);
            vstd::arithmetic::div_mod::lemma_fundamental_div_mod(b, 10);
            assert(a + b == (a / 10 + b / 10) * 10) by (nonlinear_arith)
                requires
                    a == 10 * (a / 10),
                    b == 10 * (b / 10),
            ;
            vstd::arithmetic::div_mod::lemma_mod_multiples_basic(a / 10 + b / 10, 10);
        }
        assert(x == (5 * (x / 10)) * 2) by (nonlinear_arith)
            requires
                x == 10 * (x / 10),
        ;
        vstd::arithmetic::div_mod::lemma_mod_multiples_basic(5 * (x / 10), 2);
    }
    let half = sum.half();
    half.round_half_away_six()
}

/// Derives the size texts from the size, the two deviations and the average
/// deviation: average size, maximum size, minimum size, each the exact sum of
/// the size and the corresponding deviation, rendered canonically.
pub fn calc_sizes_with_tols(size_tols: (Decimal, Decimal, Decimal), average_tol: Decimal) -> (r: (
    String,
    String,
    String,
))
    requires
        size_tols.0.wf(),
        size_tols.1.wf(),
        size_tols.2.wf(),
        -(DEC_UNITS_CAP as int) <= average_tol.units() <= DEC_UNITS_CAP as int,
    ensures
        r.0@ == spec_dec_string(size_tols.0.units() + average_tol.units()),
        r.1@ == spec_dec_string(size_tols.0.units() + size_tols.1.units()),
        r.2@ == spec_dec_string(size_tols.0.units() + size_tols.2.units()),
{
    let size = size_tols.0;
    let upper_size = size_tols.1.add(&size);
    let lower_size = size_tols.2.add(&size);
    let average_size = average_tol.add(&size);
    (average_size.to_string(), upper_size.to_string(), lower_size.to_string())
}

} // verus!
