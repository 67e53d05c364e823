//! Exact decimal arithmetic for the resolution pipeline.
//!
//! A `Decimal` stores a signed count of fixed `10^-19` units, so every sum,
//! halving and comparison in the pipeline is exact integer arithmetic; the
//! only rounding anywhere is the explicit half-away-from-zero rounding of
//! `round_half_away_six`. Values parsed from text are bounded below `10^18`
//! in magnitude and carry at most 18 fractional digits, which leaves enough
//! headroom in an `i128` for every operation the pipeline performs.

use vstd::prelude::*;

verus! {

/// Units per whole `1`: `10^19`.
pub const DEC_UNIT: u128 = 10_000_000_000_000_000_000;

/// Strict bound on the magnitude (in whole numbers) of a parsed value: `10^18`.
pub const DEC_INT_CAP: u128 = 1_000_000_000_000_000_000;

/// Guard used while accumulating integer digits: `10^17`.
pub const DEC_INT_GUARD: u128 = 100_000_000_000_000_000;

/// Strict bound on the unit count of a parsed value: `10^37`.
pub const DEC_UNITS_CAP: u128 = 10_000_000_000_000_000_000_000_000_000_000_000_000;

/// Units per `10^-6`, the step of the average-deviation rounding: `10^13`.
pub const ROUND_STEP: u128 = 10_000_000_000_000;

pub open spec fn pow10(e: nat) -> int
    decreases e,
{
    if e == 0 {
        1
    } else {
        10 * pow10((e - 1) as nat)
    }
}

pub proof fn lemma_pow10_pos(e: nat)
    ensures
        pow10(e) >= 1,
    decreases e,
{
    if e > 0 {
        lemma_pow10_pos((e - 1) as nat);
    }
}

pub proof fn lemma_pow10_mono(a: nat, b: nat)
    requires
        a <= b,
    ensures
        pow10(a) <= pow10(b),
    decreases b,
{
    if a < b {
        lemma_pow10_mono(a, (b - 1) as nat);
        lemma_pow10_pos((b - 1) as nat);
    }
}

pub proof fn lemma_pow10_adds(a: nat, b: nat)
    ensures
        pow10(a + b) == pow10(a) * pow10(b),
    decreases a,
{
    if a == 0 {
    } else {
        lemma_pow10_adds((a - 1) as nat, b);
        assert(pow10(a + b) == 10 * pow10((a - 1) as nat + b));
        assert(10 * (pow10((a - 1) as nat) * pow10(b)) == (10 * pow10((a - 1) as nat)) * pow10(b))
            by (nonlinear_arith);
    }
}

/// The named powers of ten used throughout the contracts.
pub proof fn lemma_pow10_consts()
    ensures
        pow10(0) == 1,
        pow10(1) == 10,
        pow10(2) == 100,
        pow10(3) == 1000,
        pow10(4) == 10000,
        pow10(6) == 1000000,
        pow10(13) == ROUND_STEP as int,
        pow10(17) == DEC_INT_GUARD as int,
        pow10(18) == DEC_INT_CAP as int,
        pow10(19) == DEC_UNIT as int,
        pow10(37) == DEC_UNITS_CAP as int,
{
    assert(pow10(0) == 1);
    assert(pow10(1) == 10);
    assert(pow10(2) == 100);
    assert(pow10(3) == 1000);
    assert(pow10(4) == 10000);
    assert(pow10(5) == 100000);
    assert(pow10(6) == 1000000);
    assert(pow10(7) == 10000000);
    assert(pow10(8) == 100000000);
    assert(pow10(9) == 1000000000);
    assert(pow10(10) == 10000000000);
    assert(pow10(11) == 100000000000);
    assert(pow10(12) == 1000000000000);
    assert(pow10(13) == 10000000000000);
    assert(pow10(14) == 100000000000000);
    assert(pow10(15) == 1000000000000000);
    assert(pow10(16) == 10000000000000000);
    assert(pow10(17) == 100000000000000000);
    assert(pow10(18) == 1000000000000000000);
    assert(pow10(19) == 10000000000000000000);
    assert(pow10(20) == 100000000000000000000);
    assert(pow10(21) == 1000000000000000000000);
    assert(pow10(22) == 10000000000000000000000);
    assert(pow10(23) == 100000000000000000000000);
    assert(pow10(24) == 1000000000000000000000000);
    assert(pow10(25) == 10000000000000000000000000);
    assert(pow10(26) == 100000000000000000000000000);
    assert(pow10(27) == 1000000000000000000000000000);
    assert(pow10(28) == 10000000000000000000000000000);
    assert(pow10(29) == 100000000000000000000000000000);
    assert(pow10(30) == 1000000000000000000000000000000);
    assert(pow10(31) == 10000000000000000000000000000000);
    assert(pow10(32) == 100000000000000000000000000000000);
    assert(pow10(33) == 1000000000000000000000000000000000);
    assert(pow10(34) == 10000000000000000000000000000000000);
    assert(pow10(35) == 100000000000000000000000000000000000);
    assert(pow10(36) == 1000000000000000000000000000000000000);
    assert(pow10(37) == 10000000000000000000000000000000000000);
}

pub open spec fn is_digit(c: char) -> bool {
    '0' <= c && c <= '9'
}

pub open spec fn digit_val(c: char) -> int {
    c as int - '0' as int
}

pub open spec fn all_digits(s: Seq<char>) -> bool {
    forall|i: int| 0 <= i < s.len() ==> is_digit(#[trigger] s[i])
}

/// The numeric value of a digit sequence, most significant digit first.
pub open spec fn digits_val(s: Seq<char>) -> int
    decreases s.len(),
{
    if s.len() == 0 {
        0
    } else {
        digits_val(s.drop_last()) * 10 + digit_val(s.last())
    }
}

pub proof fn lemma_digits_val_bound(s: Seq<char>)
    requires
        all_digits(s),
    ensures
        0 <= digits_val(s) < pow10(s.len()),
    decreases s.len(),
{
    if s.len() > 0 {
        assert(all_digits(s.drop_last())) by {
            assert(forall|i: int|
                0 <= i < s.drop_last().len() ==> #[trigger] s.drop_last()[i] == s[i]);
        }
        lemma_digits_val_bound(s.drop_last());
        lemma_pow10_pos((s.len() - 1) as nat);
    }
}

/// The whole run is at least its prefix shifted by the remaining length.
pub proof fn lemma_digits_val_prefix(s: Seq<char>, k: int)
    requires
        all_digits(s),
        0 <= k <= s.len(),
    ensures
        digits_val(s) >= digits_val(s.take(k)) * pow10((s.len() - k) as nat),
    decreases s.len() - k,
{
    if k == s.len() {
        assert(s.take(k) =~= s);
    } else {
        let d = s.drop_last();
        assert(all_digits(d)) by {
            assert(forall|i: int| 0 <= i < d.len() ==> #[trigger] d[i] == s[i]);
        }
        assert(d.take(k) =~= s.take(k));
        lemma_digits_val_prefix(d, k);
        lemma_digits_val_bound(s.take(k));
        let p = pow10((d.len() - k) as nat);
        let v = digits_val(s.take(k));
        assert(digits_val(d) >= v * p);
        assert(digits_val(s) == digits_val(d) * 10 + digit_val(s.last()));
        assert(pow10((s.len() - k) as nat) == 10 * p);
        assert(digits_val(d) * 10 >= (v * p) * 10) by (nonlinear_arith)
            requires
                digits_val(d) >= v * p,
        ;
        assert((v * p) * 10 == v * (10 * p)) by (nonlinear_arith);
        assert(is_digit(s.last()));
    }
}

/// A digit run with a nonzero leading digit is at least `10^(len-1)`.
pub proof fn lemma_digits_val_first(s: Seq<char>)
    requires
        all_digits(s),
        s.len() >= 1,
        s[0] != '0',
    ensures
        digits_val(s) >= pow10((s.len() - 1) as nat),
{
    lemma_digits_val_prefix(s, 1);
    assert(s.take(1).len() == 1);
    assert(digits_val(Seq::<char>::empty()) == 0);
    assert(s.take(1).drop_last() =~= Seq::<char>::empty());
    assert(s.take(1).last() == s[0]);
    assert(digits_val(s.take(1)) == digit_val(s[0]));
    assert(digit_val(s[0]) >= 1);
    let p = pow10((s.len() - 1) as nat);
    lemma_pow10_pos((s.len() - 1) as nat);
    assert(digit_val(s[0]) * p >= 1 * p) by (nonlinear_arith)
        requires
            digit_val(s[0]) >= 1,
            p >= 1,
    ;
}

/// Step lemma for scanning loops that accumulate a digit value left to right.
pub proof fn lemma_digits_val_step(s: Seq<char>, j: int)
    requires
        0 <= j < s.len(),
    ensures
        digits_val(s.take(j + 1)) == digits_val(s.take(j)) * 10 + digit_val(s[j]),
{
    assert(s.take(j + 1).drop_last() =~= s.take(j));
    assert(s.take(j + 1).last() == s[j]);
}

/// Length of the longest digit prefix.
pub open spec fn digit_run_len(s: Seq<char>) -> int
    decreases s.len(),
{
    if s.len() == 0 || !is_digit(s[0]) {
        0
    } else {
        1 + digit_run_len(s.skip(1))
    }
}

pub proof fn lemma_digit_run_props(s: Seq<char>)
    ensures
        0 <= digit_run_len(s) <= s.len(),
        forall|i: int| 0 <= i < digit_run_len(s) ==> is_digit(#[trigger] s[i]),
        digit_run_len(s) < s.len() ==> !is_digit(s[digit_run_len(s)]),
    decreases s.len(),
{
    if s.len() > 0 && is_digit(s[0]) {
        lemma_digit_run_props(s.skip(1));
        let run = digit_run_len(s);
        assert forall|i: int| 0 <= i < run implies is_digit(#[trigger] s[i]) by {
            if i >= 1 {
                assert(s.skip(1)[i - 1] == s[i]);
                assert(is_digit(s.skip(1)[i - 1]));
            }
        }
        if run < s.len() {
            assert(s.skip(1)[run - 1] == s[run]);
        }
    }
}

pub proof fn lemma_digit_run_determined(s: Seq<char>, k: int)
    requires
        0 <= k <= s.len(),
        forall|i: int| 0 <= i < k ==> is_digit(#[trigger] s[i]),
        k < s.len() ==> !is_digit(s[k]),
    ensures
        digit_run_len(s) == k,
    decreases s.len(),
{
    if s.len() == 0 || !is_digit(s[0]) {
        assert(k == 0);
    } else {
        assert(k >= 1) by {
            if k == 0 {
                assert(!is_digit(s[0]));
            }
        }
        assert forall|i: int| 0 <= i < k - 1 implies is_digit(#[trigger] s.skip(1)[i]) by {
            assert(s.skip(1)[i] == s[i + 1]);
            assert(is_digit(s[i + 1]));
        }
        if k - 1 < s.skip(1).len() {
            assert(s.skip(1)[k - 1] == s[k]);
        }
        lemma_digit_run_determined(s.skip(1), k - 1);
    }
}

/// Signed unit count from a sign and the two digit groups of a literal.
pub open spec fn spec_signed(neg: bool, mag: int) -> int {
    if neg {
        -mag
    } else {
        mag
    }
}

/// The exact unit count denoted by a decimal literal, or `None` when the text
/// is not a literal this library accepts: an optional `-`, an integer digit
/// run, an optional `.` followed by one or more fraction digits, at least one
/// digit in all, at most 18 fraction digits, and an integer part below `10^18`.
pub open spec fn spec_dec_parse(s: Seq<char>) -> Option<int> {
    let neg = s.len() > 0 && s[0] == '-';
    let b = if neg {
        s.skip(1)
    } else {
        s
    };
    let ilen = digit_run_len(b);
    let ipart = b.take(ilen);
    let rest = b.skip(ilen);
    if rest.len() == 0 {
        if ilen >= 1 && digits_val(ipart) < DEC_INT_CAP as int {
            Some(spec_signed(neg, digits_val(ipart) * DEC_UNIT as int))
        } else {
            None
        }
    } else if rest[0] == '.' {
        let frac = rest.skip(1);
        if all_digits(frac) && 1 <= frac.len() <= 18 && digits_val(ipart) < DEC_INT_CAP as int {
            Some(
                spec_signed(
                    neg,
                    digits_val(ipart) * DEC_UNIT as int + digits_val(frac) * pow10(
                        (19 - frac.len()) as nat,
                    ),
                ),
            )
        } else {
            None
        }
    } else {
        None
    }
}

/// An exact decimal number: a signed count of `10^-19` units.
#[derive(Clone, Copy, Debug, PartialEq, Eq, Structural)]
pub struct Decimal {
    units: i128,
}

impl Decimal {
    /// The signed unit count; the value denoted is `units() / 10^19`.
    pub closed spec fn units(self) -> int {
        self.units as int
    }

    /// Every value the pipeline produces keeps its unit count a multiple of
    /// ten (the 19th fraction digit is never occupied) and within `10^37`.
    pub open spec fn wf(self) -> bool {
        self.units() % 10 == 0 && -(DEC_UNITS_CAP as int) < self.units() < DEC_UNITS_CAP as int
    }

    pub fn le(&self, other: &Decimal) -> (r: bool)
        ensures
            r == (self.units() <= other.units()),
    {
        self.units <= other.units
    }

    pub fn add(&self, other: &Decimal) -> (r: Decimal)
        requires
            i128::MIN < self.units() + other.units() < i128::MAX,
        ensures
            r.units() == self.units() + other.units(),
    {
        Decimal { units: self.units + other.units }
    }

    /// Exact halving; the unit count must be even, which holds of every
    /// well-formed value and of every sum of two of them.
    pub fn half(&self) -> (r: Decimal)
        requires
            self.units() % 2 == 0,
            i128::MIN < self.units(),
        ensures
            r.units() == self.units() / 2,
    {
        if self.units >= 0 {
            let m = (self.units as u128) / 2;
            Decimal { units: m as i128 }
        } else {
            let m = ((-self.units) as u128) / 2;
            proof {
                assert(self.units() == -2 * (m as int));
            }
            Decimal { units: -(m as i128) }
        }
    }

    /// Rounds to six fractional digits, half away from zero.
    pub fn round_half_away_six(&self) -> (r: Decimal)
        requires
            -(DEC_UNITS_CAP as int) <= self.units() <= DEC_UNITS_CAP as int,
        ensures
            r.units() == spec_round_half_away(self.units(), ROUND_STEP as int),
            r.units() % (ROUND_STEP as int) == 0,
            -(DEC_UNITS_CAP as int) <= r.units() <= DEC_UNITS_CAP as int,
    {
        let neg = self.units < 0;
        let mag: u128 = if neg {
            (-self.units) as u128
        } else {
            self.units as u128
        };
        let q = (mag + ROUND_STEP / 2) / ROUND_STEP;
        proof {
            vstd::arithmetic::div_mod::lemma_div_is_ordered(
                mag as int + (ROUND_STEP / 2) as int,
                DEC_UNITS_CAP as int + (ROUND_STEP / 2) as int,
                ROUND_STEP as int,
            );
            assert((DEC_UNITS_CAP as int + (ROUND_STEP / 2) as int) / (ROUND_STEP as int)
                == DEC_UNITS_CAP as int / ROUND_STEP as int);
            assert(q as int * ROUND_STEP as int <= (DEC_UNITS_CAP as int / ROUND_STEP as int)
                * ROUND_STEP as int) by (nonlinear_arith)
                requires
                    q as int <= DEC_UNITS_CAP as int / ROUND_STEP as int,
                    ROUND_STEP as int > 0,
            ;
            assert((DEC_UNITS_CAP as int / ROUND_STEP as int) * ROUND_STEP as int
                == DEC_UNITS_CAP as int);
            vstd::arithmetic::div_mod::lemma_mod_multiples_basic(
                (q as int) * ((ROUND_STEP / 10) as int),
                10,
            );
            assert(q as int * ROUND_STEP as int == (q as int * (ROUND_STEP / 10) as int) * 10)
                by (nonlinear_arith)
                requires
                    ROUND_STEP as int == (ROUND_STEP / 10) as int * 10,
            ;
            vstd::arithmetic::div_mod::lemma_mod_multiples_basic(q as int, ROUND_STEP as int);
        }
        let m = q * ROUND_STEP;
        if neg {
            Decimal { units: -(m as i128) }
        } else {
            Decimal { units: m as i128 }
        }
    }

    /// The canonical text of this value; for well-formed values the text
    /// reads back as exactly this value.
    pub fn to_string(&self) -> (r: String)
        requires
            i128::MIN < self.units(),
        ensures
            r@ == spec_dec_string(self.units()),
            self.wf() ==> spec_dec_parse(r@) == Some(self.units()),
    {
        proof {
            if self.wf() {
                lemma_dec_string_parses(self.units());
            }
        }
        let neg = self.units < 0;
        let mag0: u128 = if neg {
            (-self.units) as u128
        } else {
            self.units as u128
        };
        let mut m: u128 = mag0;
        let mut sc: u32 = 19;
        while sc > 0 && m % 10 == 0
            invariant
                sc <= 19,
                spec_strip(mag0 as int, 19) == spec_strip(m as int, sc as int),
                m <= mag0,
            decreases sc,
        {
            m = m / 10;
            sc -= 1;
        }
        proof {
            assert(spec_strip(m as int, sc as int) == (m as int, sc as int));
        }
        let core: String;
        if sc == 0 {
            core = digits_string(m);
        } else {
            let p = pow10_u128(sc);
            proof {
                lemma_pow10_pos(sc as nat);
            }
            let ip = m / p;
            let fp = m % p;
            core = digits_string(ip).concat(".").concat(padded_string(fp, sc).as_str());
            proof {
                reveal_strlit(".");
                assert("."@ =~= seq!['.']);
                assert(core@ =~= spec_digits_seq(ip as int) + seq!['.'] + spec_padded_seq(
                    fp as int,
                    sc as int,
                ));
            }
        }
        if neg {
            let r = "-".to_owned().concat(core.as_str());
            proof {
                reveal_strlit("-");
                assert("-"@ =~= seq!['-']);
                assert(r@ =~= spec_dec_string(self.units()));
            }
            r
        } else {
            proof {
                assert(core@ =~= spec_dec_string(self.units()));
            }
            core
        }
    }

    /// Parses a decimal literal into an exact value.
    #[verifier::loop_isolation(false)]
    #[verifier::rlimit(50)]
    pub fn from_str(s: &str) -> (r: Option<Decimal>)
        ensures
            match r {
                Some(d) => spec_dec_parse(s@) == Some(d.units()) && d.wf(),
                None => spec_dec_parse(s@) is None,
            },
    {
        let n = s.unicode_len();
        let ghost view = s@;
        let mut i: usize = 0;
        let mut neg = false;
        if n > 0 && s.get_char(0) == '-' {
            neg = true;
            i = 1;
        }
        let ghost b = if neg { view.skip(1) } else { view };
        proof {
            assert(b =~= view.subrange(i as int, n as int));
        }
        // integer digit run
        let mut ival: u128 = 0;
        let mut j: usize = i;
        let mut done = false;
        while !done
            invariant
                i <= j <= n,
                forall|k: int| 0 <= k < j - i ==> is_digit(#[trigger] b[k]),
                ival as int == digits_val(b.take(j - i)),
                ival < DEC_INT_CAP,
                done ==> j == n || !is_digit(b[j - i]),
            decreases n - j + (if done { 0int } else { 1int }),
        {
            if j == n {
                done = true;
            } else {
                let c = s.get_char(j);
                proof {
                    assert(b[j - i] == view[j as int]);
                }
                if !('0' <= c && c <= '9') {
                    done = true;
                } else if ival >= DEC_INT_GUARD {
                    // the full integer run would reach 10^18: not a literal we accept
                    proof {
                        lemma_digit_run_props(b);
                        let run = digit_run_len(b);
                        assert(run > j - i) by {
                            if run <= j - i {
                                assert(is_digit(b[run]));
                            }
                        }
                        assert(all_digits(b.take(run))) by {
                            assert(forall|k: int|
                                0 <= k < run ==> #[trigger] b.take(run)[k] == b[k]);
                        }
                        lemma_digits_val_prefix(b.take(run), (j - i) as int);
                        assert(b.take(run).take((j - i) as int) =~= b.take(j - i));
                        let rem = (run - (j - i)) as nat;
                        lemma_pow10_mono(1, rem);
                        lemma_pow10_consts();
                        assert(digits_val(b.take(run)) >= digits_val(b.take(j - i)) * pow10(rem));
                        assert(digits_val(b.take(j - i)) * pow10(rem) >= DEC_INT_GUARD as int * 10)
                            by (nonlinear_arith)
                            requires
                                digits_val(b.take(j - i)) >= DEC_INT_GUARD as int,
                                pow10(rem) >= 10,
                        ;
                        lemma_spec_dec_parse_rejects_large(view, neg, b);
                    }
                    return None;
                } else {
                    proof {
                        lemma_digits_val_step(b, (j - i) as int);
                    }
                    ival = ival * 10 + (c as u32 as u128 - '0' as u32 as u128);
                    j += 1;
                }
            }
        }
        let ilen = j - i;
        let ghost ipart = b.take(ilen as int);
        let ghost rest = b.skip(ilen as int);
        proof {
            lemma_digit_run_determined(b, ilen as int);
            assert(rest =~= view.subrange(j as int, n as int));
        }
        if j == n {
            if ilen == 0 {
                assert(spec_dec_parse(view) is None);
                return None;
            }
            proof {
                lemma_pow10_consts();
                lemma_mag_bound(ival as int, 0, 0);
            }
            let mag = ival * DEC_UNIT;
            let d = Self::build(neg, mag);
            proof {
                assert(rest.len() == 0);
                assert(spec_dec_parse(view) == Some(spec_signed(neg, digits_val(ipart) * DEC_UNIT as int)));
            }
            return Some(d);
        }
        let sep = s.get_char(j);
        proof {
            assert(rest[0] == view[j as int]);
        }
        if sep != '.' {
            assert(spec_dec_parse(view) is None);
            return None;
        }
        // fraction digit run must reach the end of the text
        let ghost frac = view.subrange(j + 1, n as int);
        proof {
            assert(rest.skip(1) =~= frac);
        }
        let mut fval: u128 = 0;
        let mut k: usize = j + 1;
        while k < n
            invariant
                j + 1 <= k <= n,
                view == s@,
                n == view.len(),
                frac == view.subrange(j + 1, n as int),
                rest.skip(1) == frac,
                rest[0] == '.',
                b == view.subrange(i as int, n as int),
                rest == b.skip(ilen as int),
                ipart == b.take(ilen as int),
                digit_run_len(b) == ilen,
                neg == (view.len() > 0 && view[0] == '-'),
                b == if neg { view.skip(1) } else { view },
                (ival as int) == digits_val(ipart),
                ival < DEC_INT_CAP,
                forall|t: int| 0 <= t < k - (j + 1) ==> is_digit(#[trigger] frac[t]),
                fval as int == digits_val(frac.take(k - (j + 1))),
                k - (j + 1) <= 18,
                fval < DEC_INT_CAP,
            decreases n - k,
        {
            let c = s.get_char(k);
            proof {
                assert(frac[k - (j + 1)] == view[k as int]);
            }
            if !('0' <= c && c <= '9') {
                proof {
                    assert(!is_digit(frac[k - (j + 1)]));
                    assert(!all_digits(frac));
                }
                return None;
            }
            if k - (j + 1) == 18 {
                // more than 18 fraction digits
                proof {
                    assert(frac.len() > 18);
                }
                return None;
            }
            proof {
                lemma_digits_val_step(frac, k - (j + 1));
                assert(all_digits(frac.take(k - (j + 1) + 1))) by {
                    assert(forall|t: int|
                        0 <= t < k - (j + 1) + 1 ==> #[trigger] frac.take(k - (j + 1) + 1)[t]
                            == frac[t]);
                }
                lemma_digits_val_bound(frac.take(k - (j + 1) + 1));
                lemma_pow10_mono((k - (j + 1) + 1) as nat, 18);
                lemma_pow10_consts();
            }
            fval = fval * 10 + (c as u32 as u128 - '0' as u32 as u128);
            k += 1;
        }
        let flen = n - (j + 1);
        if flen == 0 {
            proof {
                assert(frac.len() == 0);
            }
            return None;
        }
        proof {
            assert(frac.take(flen as int) =~= frac);
            assert(all_digits(frac));
            lemma_digits_val_bound(frac);
            lemma_pow10_mono(frac.len() as nat, 18);
            lemma_pow10_consts();
            lemma_pow10_mono((19 - flen) as nat, 19);
            lemma_pow10_pos((19 - flen) as nat);
            assert(fval as int * pow10((19 - flen) as nat) < pow10(flen as nat) * pow10(
                (19 - flen) as nat,
            )) by (nonlinear_arith)
                requires
                    0 <= fval as int,
                    (fval as int) < pow10(flen as nat),
                    pow10((19 - flen) as nat) >= 1,
            ;
            lemma_pow10_adds(flen as nat, (19 - flen) as nat);
            assert(pow10(19) == DEC_UNIT as int);
            lemma_mag_bound(ival as int, fval as int, (19 - flen) as int);
        }
        let scale = pow10_u128(19 - flen as u32);
        let fmag = fval * scale;
        let mag = ival * DEC_UNIT + fmag;
        let d = Self::build_frac(neg, mag, ival, fval, flen);
        proof {
            assert(spec_dec_parse(view) == Some(
                spec_signed(
                    neg,
                    digits_val(ipart) * DEC_UNIT as int + digits_val(frac) * pow10(
                        (19 - frac.len()) as nat,
                    ),
                ),
            ));
        }
        Some(d)
    }

    fn build(neg: bool, mag: u128) -> (r: Decimal)
        requires
            mag < DEC_UNITS_CAP,
            mag as int % 10 == 0,
        ensures
            r.units() == spec_signed(neg, mag as int),
            r.wf(),
    {
        if neg {
            Decimal { units: -(mag as i128) }
        } else {
            Decimal { units: mag as i128 }
        }
    }

    fn build_frac(neg: bool, mag: u128, ival: u128, fval: u128, flen: usize) -> (r: Decimal)
        requires
            1 <= flen <= 18,
            mag as int == ival as int * DEC_UNIT as int + fval as int * pow10((19 - flen) as nat),
            mag < DEC_UNITS_CAP,
            mag as int % 10 == 0,
        ensures
            r.units() == spec_signed(
                neg,
                ival as int * DEC_UNIT as int + fval as int * pow10((19 - flen) as nat),
            ),
            r.wf(),
    {
        if neg {
            Decimal { units: -(mag as i128) }
        } else {
            Decimal { units: mag as i128 }
        }
    }
}

/// Bound and divisibility of `ival * 10^19 + fval * 10^(19-flen)`.
proof fn lemma_mag_bound(ival: int, fval: int, fexp: int)
    requires
        0 <= ival < DEC_INT_CAP as int,
        0 <= fval,
        0 <= fexp <= 18,
        fval == 0 || fexp >= 1,
        fval * pow10(fexp as nat) < DEC_UNIT as int,
    ensures
        0 <= ival * DEC_UNIT as int + fval * pow10(fexp as nat) < DEC_UNITS_CAP as int,
        (ival * DEC_UNIT as int + fval * pow10(fexp as nat)) % 10 == 0,
{
    lemma_pow10_consts();
    lemma_pow10_pos(fexp as nat);
    let u = DEC_UNIT as int;
    let f = fval * pow10(fexp as nat);
    assert(ival * u <= (DEC_INT_CAP as int - 1) * u && ival * u >= 0) by (nonlinear_arith)
        requires
            0 <= ival <= DEC_INT_CAP as int - 1,
            u > 0,
    ;
    assert((DEC_INT_CAP as int - 1) * u + u == DEC_INT_CAP as int * u) by (nonlinear_arith);
    assert(DEC_INT_CAP as int * u == pow10(18) * pow10(19));
    lemma_pow10_adds(18, 19);
    assert(fval * pow10(fexp as nat) >= 0) by (nonlinear_arith)
        requires
            fval >= 0,
            pow10(fexp as nat) >= 1,
    ;
    // divisibility by 10: both addends are multiples of 10
    let uq = u / 10;
    assert(ival * u == (ival * uq) * 10) by (nonlinear_arith)
        requires
            u == uq * 10,
    ;
    let fq = if fval == 0 {
        0int
    } else {
        fval * pow10((fexp - 1) as nat)
    };
    assert(f == fq * 10) by {
        if fval == 0 {
            assert(f == 0) by (nonlinear_arith)
                requires
                    fval == 0,
                    f == fval * pow10(fexp as nat),
            ;
        } else {
            assert(pow10(fexp as nat) == 10 * pow10((fexp - 1) as nat));
            assert(fval * (10 * pow10((fexp - 1) as nat)) == (fval * pow10((fexp - 1) as nat)) * 10)
                by (nonlinear_arith);
        }
    }
    assert(ival * u + f == (ival * uq + fq) * 10) by (nonlinear_arith)
        requires
            ival * u == (ival * uq) * 10,
            f == fq * 10,
    ;
    vstd::arithmetic::div_mod::lemma_mod_multiples_basic(ival * uq + fq, 10);
}

/// When the integer digit run reaches `10^18`, no reading of the text is a
/// literal this library accepts.
proof fn lemma_spec_dec_parse_rejects_large(view: Seq<char>, neg: bool, b: Seq<char>)
    requires
        b == if neg { view.skip(1) } else { view },
        neg ==> view.len() > 0 && view[0] == '-',
        digits_val(b.take(digit_run_len(b))) >= DEC_INT_CAP as int,
    ensures
        spec_dec_parse(view) is None,
{
    if !neg && view.len() > 0 && view[0] == '-' {
        assert(!is_digit(b[0]));
        assert(digit_run_len(b) == 0);
        assert(digits_val(b.take(0)) == 0);
    }
}

/// Midpoint rounding, half away from zero, to a positive even `step`.
pub open spec fn spec_round_half_away(n: int, step: int) -> int
    recommends
        step > 0,
        step % 2 == 0,
{
    if n >= 0 {
        ((n + step / 2) / step) * step
    } else {
        -(((-n + step / 2) / step) * step)
    }
}

/// The decimal digit whose value is `d`.
pub open spec fn spec_digit_char(d: int) -> char
    recommends
        0 <= d <= 9,
{
    ('0' as int + d) as char
}

/// The canonical digit text of a nonnegative number, no leading zeros.
pub open spec fn spec_digits_seq(n: int) -> Seq<char>
    recommends
        n >= 0,
    decreases n,
{
    if n < 10 {
        seq![spec_digit_char(n)]
    } else {
        spec_digits_seq(n / 10).push(spec_digit_char(n % 10))
    }
}

/// Exactly `w` digit characters, left-padded with zeros.
pub open spec fn spec_padded_seq(n: int, w: int) -> Seq<char>
    recommends
        n >= 0,
    decreases w,
{
    if w <= 0 {
        Seq::empty()
    } else {
        spec_padded_seq(n / 10, w - 1).push(spec_digit_char(n % 10))
    }
}

/// Drops factors of ten from the magnitude until the scale is exhausted or
/// the lowest digit is occupied: the canonical (magnitude, scale) pair.
pub open spec fn spec_strip(m: int, s: int) -> (int, int)
    decreases s,
{
    if s <= 0 || m % 10 != 0 {
        (m, s)
    } else {
        spec_strip(m / 10, s - 1)
    }
}

/// The canonical text of the value `u / 10^19`: trailing zeros stripped, a
/// fraction part only where one remains, a leading `-` only on negatives.
pub open spec fn spec_dec_string(u: int) -> Seq<char> {
    let mag = if u < 0 {
        -u
    } else {
        u
    };
    let ms = spec_strip(mag, 19);
    let core = if ms.1 == 0 {
        spec_digits_seq(ms.0)
    } else {
        spec_digits_seq(ms.0 / pow10(ms.1 as nat)) + seq!['.'] + spec_padded_seq(
            ms.0 % pow10(ms.1 as nat),
            ms.1,
        )
    };
    if u < 0 {
        seq!['-'] + core
    } else {
        core
    }
}

/// The canonical digit text of `n` reads back as `n`: it is nonempty, all
/// digits, one character for `n <= 9`, and never starts with a zero otherwise.
pub proof fn lemma_digits_seq_val(n: int)
    requires
        n >= 0,
    ensures
        spec_digits_seq(n).len() >= 1,
        all_digits(spec_digits_seq(n)),
        digits_val(spec_digits_seq(n)) == n,
        n < 10 ==> spec_digits_seq(n).len() == 1,
        n >= 10 ==> spec_digits_seq(n)[0] != '0',
    decreases n,
{
    if n < 10 {
        let s = spec_digits_seq(n);
        assert(s.len() == 1);
        assert(s[0] == spec_digit_char(n));
        assert(is_digit(spec_digit_char(n)));
        assert(s.drop_last() =~= Seq::<char>::empty());
        assert(digits_val(Seq::<char>::empty()) == 0);
        assert(s.last() == spec_digit_char(n));
        assert(digits_val(s) == digit_val(spec_digit_char(n)));
        assert(digit_val(spec_digit_char(n)) == n);
    } else {
        lemma_digits_seq_val(n / 10);
        let p = spec_digits_seq(n / 10);
        let s = spec_digits_seq(n);
        assert(p.len() >= 1);
        assert(s == p.push(spec_digit_char(n % 10)));
        assert(s.drop_last() =~= p);
        assert(s.last() == spec_digit_char(n % 10));
        assert(digit_val(spec_digit_char(n % 10)) == n % 10);
        assert(digits_val(s) == (n / 10) * 10 + n % 10);
        assert(all_digits(s)) by {
            assert(forall|i: int| 0 <= i < p.len() ==> #[trigger] s[i] == p[i]);
            assert(is_digit(spec_digit_char(n % 10)));
        }
        assert(s[0] == p[0]);
        assert(s[0] != '0') by {
            if n / 10 < 10 {
                assert(p[0] == spec_digit_char(n / 10));
                assert(n / 10 >= 1);
            }
        }
    }
}

/// A padded digit text of width `w` reads back as its value.
pub proof fn lemma_padded_val(n: int, w: int)
    requires
        0 <= w,
        0 <= n < pow10(w as nat),
    ensures
        spec_padded_seq(n, w).len() == w,
        all_digits(spec_padded_seq(n, w)),
        digits_val(spec_padded_seq(n, w)) == n,
    decreases w,
{
    if w == 0 {
    } else {
        vstd::arithmetic::div_mod::lemma_fundamental_div_mod(n, 10);
        assert(n / 10 < pow10((w - 1) as nat)) by {
            assert(pow10(w as nat) == 10 * pow10((w - 1) as nat));
            assert(10 * (n / 10) <= n);
        }
        lemma_padded_val(n / 10, w - 1);
        let p = spec_padded_seq(n / 10, w - 1);
        let s = spec_padded_seq(n, w);
        assert(s == p.push(spec_digit_char(n % 10)));
        assert(s.drop_last() =~= p);
        assert(s.last() == spec_digit_char(n % 10));
        assert(digit_val(spec_digit_char(n % 10)) == n % 10);
        assert(all_digits(s)) by {
            assert(forall|i: int| 0 <= i < p.len() ==> #[trigger] s[i] == p[i]);
            assert(is_digit(spec_digit_char(n % 10)));
        }
    }
}

/// What stripping guarantees: the scale only shrinks, the value is kept
/// exactly, and a remaining scale means the lowest digit is occupied.
pub proof fn lemma_strip_props(m: int, s: int)
    requires
        m >= 0,
        s >= 0,
    ensures
        0 <= spec_strip(m, s).1 <= s,
        spec_strip(m, s).0 >= 0,
        spec_strip(m, s).0 * pow10((s - spec_strip(m, s).1) as nat) == m,
        spec_strip(m, s).1 > 0 ==> spec_strip(m, s).0 % 10 != 0,
        m % 10 == 0 && s > 0 ==> spec_strip(m, s).1 < s,
    decreases s,
{
    if s <= 0 || m % 10 != 0 {
        assert(m * pow10(0) == m);
    } else {
        vstd::arithmetic::div_mod::lemma_fundamental_div_mod(m, 10);
        lemma_strip_props(m / 10, s - 1);
        let r = spec_strip(m, s);
        assert(r == spec_strip(m / 10, s - 1));
        let e = (s - 1 - r.1) as nat;
        assert(r.0 * pow10(e) == m / 10);
        assert(pow10(e + 1) == pow10((s - r.1) as nat));
        assert(r.0 * pow10(e + 1) == m) by (nonlinear_arith)
            requires
                r.0 * pow10(e) == m / 10,
                m == 10 * (m / 10),
                pow10(e + 1) == 10 * pow10(e),
        ;
    }
}

/// Round trip: the canonical text of a well-formed unit count reads back as
/// exactly that unit count.
pub proof fn lemma_dec_string_parses(u: int)
    requires
        u % 10 == 0,
        -(DEC_UNITS_CAP as int) < u < DEC_UNITS_CAP as int,
    ensures
        spec_dec_parse(spec_dec_string(u)) == Some(u),
{
    lemma_pow10_consts();
    let mag = if u < 0 {
        -u
    } else {
        u
    };
    assert(mag % 10 == 0);
    lemma_strip_props(mag, 19);
    let ms = spec_strip(mag, 19);
    let m = ms.0;
    let sc = ms.1;
    let k = (19 - sc) as nat;
    assert(m * pow10(k) == mag);
    assert(sc <= 18);
    assert(m < DEC_INT_CAP as int || sc >= 1) by {
        if sc == 0 {
            assert(pow10(k) == pow10(19));
            assert(m * pow10(19) == mag);
            if m >= DEC_INT_CAP as int {
                assert(m * pow10(19) >= DEC_INT_CAP as int * pow10(19)) by (nonlinear_arith)
                    requires
                        m >= DEC_INT_CAP as int,
                        pow10(19) >= 1,
                ;
                lemma_pow10_adds(18, 19);
            }
        }
    }
    let core = if sc == 0 {
        spec_digits_seq(m)
    } else {
        spec_digits_seq(m / pow10(sc as nat)) + seq!['.'] + spec_padded_seq(
            m % pow10(sc as nat),
            sc,
        )
    };
    assert(spec_dec_string(u) == if u < 0 {
        seq!['-'] + core
    } else {
        core
    });
    if sc == 0 {
        lemma_digits_seq_val(m);
        lemma_core_int_parses(u, mag, m, core);
    } else {
        let p = pow10(sc as nat);
        lemma_pow10_pos(sc as nat);
        lemma_pow10_pos(k);
        let ip = m / p;
        let fp = m % p;
        vstd::arithmetic::div_mod::lemma_fundamental_div_mod(m, p);
        assert(m == ip * p + fp) by (nonlinear_arith)
            requires
                m == p * (m / p) + m % p,
                ip == m / p,
                fp == m % p,
        ;
        assert(0 <= fp < p) by {
            vstd::arithmetic::div_mod::lemma_mod_division_less_than_divisor(m, p);
        }
        assert(ip >= 0) by {
            vstd::arithmetic::div_mod::lemma_div_is_ordered(0, m, p);
        }
        assert(ip < DEC_INT_CAP as int) by {
            assert(ip * p <= m);
            assert(ip * p * pow10(k) <= m * pow10(k)) by (nonlinear_arith)
                requires
                    ip * p <= m,
                    pow10(k) >= 1,
            ;
            lemma_pow10_adds(sc as nat, k);
            assert(p * pow10(k) == pow10(19));
            assert(ip * pow10(19) == ip * p * pow10(k)) by (nonlinear_arith)
                requires
                    p * pow10(k) == pow10(19),
            ;
            if ip >= DEC_INT_CAP as int {
                assert(ip * pow10(19) >= DEC_INT_CAP as int * pow10(19)) by (nonlinear_arith)
                    requires
                        ip >= DEC_INT_CAP as int,
                        pow10(19) >= 1,
                ;
                lemma_pow10_adds(18, 19);
            }
        }
        lemma_digits_seq_val(ip);
        lemma_padded_val(fp, sc);
        lemma_core_frac_parses(u, mag, m, sc, ip, fp, core);
    }
}

/// The integer-only canonical core parses back: helper for the round trip.
proof fn lemma_core_int_parses(u: int, mag: int, m: int, core: Seq<char>)
    requires
        mag == if u < 0 {
            -u
        } else {
            u
        },
        m * pow10((19 - 0) as nat) == mag,
        0 <= m < DEC_INT_CAP as int,
        core == spec_digits_seq(m),
        core.len() >= 1,
        all_digits(core),
        digits_val(core) == m,
        spec_dec_string(u) == if u < 0 {
            seq!['-'] + core
        } else {
            core
        },
    ensures
        spec_dec_parse(spec_dec_string(u)) == Some(u),
{
    lemma_pow10_consts();
    let s = spec_dec_string(u);
    if u < 0 {
        assert(s[0] == '-');
        assert(s.skip(1) =~= core);
    } else {
        assert(s == core);
        assert(!is_digit('-') || true);
        assert(is_digit(s[0]));
        assert(s[0] != '-');
    }
    let b = if s.len() > 0 && s[0] == '-' {
        s.skip(1)
    } else {
        s
    };
    assert(b == core);
    lemma_digit_run_determined(b, core.len() as int);
    assert(b.take(core.len() as int) =~= core);
    assert(b.skip(core.len() as int).len() == 0);
    assert(spec_dec_parse(s) == Some(spec_signed(u < 0, m * DEC_UNIT as int)));
    assert(m * pow10(19) == mag);
    assert(spec_signed(u < 0, mag) == u);
}

/// The fractional canonical core parses back: helper for the round trip.
proof fn lemma_core_frac_parses(
    u: int,
    mag: int,
    m: int,
    sc: int,
    ip: int,
    fp: int,
    core: Seq<char>,
)
    requires
        mag == if u < 0 {
            -u
        } else {
            u
        },
        1 <= sc <= 18,
        m * pow10((19 - sc) as nat) == mag,
        m == ip * pow10(sc as nat) + fp,
        0 <= fp < pow10(sc as nat),
        0 <= ip < DEC_INT_CAP as int,
        core == spec_digits_seq(ip) + seq!['.'] + spec_padded_seq(fp, sc),
        spec_digits_seq(ip).len() >= 1,
        all_digits(spec_digits_seq(ip)),
        digits_val(spec_digits_seq(ip)) == ip,
        spec_padded_seq(fp, sc).len() == sc,
        all_digits(spec_padded_seq(fp, sc)),
        digits_val(spec_padded_seq(fp, sc)) == fp,
        spec_dec_string(u) == if u < 0 {
            seq!['-'] + core
        } else {
            core
        },
    ensures
        spec_dec_parse(spec_dec_string(u)) == Some(u),
{
    lemma_pow10_consts();
    let s = spec_dec_string(u);
    let digits = spec_digits_seq(ip);
    let frac = spec_padded_seq(fp, sc);
    let dl = digits.len() as int;
    if u < 0 {
        assert(s[0] == '-');
        assert(s.skip(1) =~= core);
    } else {
        assert(s == core);
        assert(s[0] == core[0]);
        assert(core[0] == digits[0]);
        assert(is_digit(digits[0]));
        assert(s[0] != '-');
    }
    let b = if s.len() > 0 && s[0] == '-' {
        s.skip(1)
    } else {
        s
    };
    assert(b == core);
    assert(forall|i: int| 0 <= i < dl ==> #[trigger] core[i] == digits[i]);
    assert(core[dl] == '.');
    assert(!is_digit(core[dl]));
    lemma_digit_run_determined(core, dl);
    assert(core.take(dl) =~= digits);
    let rest = core.skip(dl);
    assert(rest[0] == '.');
    assert(rest.skip(1) =~= frac);
    assert(1 <= frac.len() <= 18);
    // the parsed unit count equals the stripped magnitude, rescaled
    let units = ip * DEC_UNIT as int + fp * pow10((19 - sc) as nat);
    assert(spec_dec_parse(s) == Some(spec_signed(u < 0, units)));
    let k = (19 - sc) as nat;
    lemma_pow10_adds(sc as nat, k);
    assert(units == mag) by (nonlinear_arith)
        requires
            units == ip * pow10(sc as nat + k) + fp * pow10(k),
            pow10(sc as nat + k) == pow10(sc as nat) * pow10(k),
            m == ip * pow10(sc as nat) + fp,
            m * pow10(k) == mag,
    ;
    assert(spec_signed(u < 0, mag) == u);
}

/// The single-character text of one decimal digit.
fn digit_str(d: u128) -> (r: &'static str)
    requires
        d < 10,
    ensures
        r@ == seq![spec_digit_char(d as int)],
{
    proof {
        reveal_strlit("0");
        reveal_strlit("1");
        reveal_strlit("2");
        reveal_strlit("3");
        reveal_strlit("4");
        reveal_strlit("5");
        reveal_strlit("6");
        reveal_strlit("7");
        reveal_strlit("8");
        reveal_strlit("9");
    }
    let r = match d {
        0 => "0",
        1 => "1",
        2 => "2",
        3 => "3",
        4 => "4",
        5 => "5",
        6 => "6",
        7 => "7",
        8 => "8",
        _ => "9",
    };
    proof {
        assert(r@ =~= seq![spec_digit_char(d as int)]);
    }
    r
}

/// The canonical digit text of `n`.
fn digits_string(n: u128) -> (r: String)
    ensures
        r@ == spec_digits_seq(n as int),
    decreases n,
{
    if n < 10 {
        let r = digit_str(n).to_owned();
        proof {
            assert(r@ =~= spec_digits_seq(n as int));
        }
        r
    } else {
        let r = digits_string(n / 10).concat(digit_str(n % 10));
        proof {
            assert(r@ =~= spec_digits_seq(n as int));
        }
        r
    }
}

/// Exactly `w` digits of `n`, left-padded with zeros.
fn padded_string(n: u128, w: u32) -> (r: String)
    ensures
        r@ == spec_padded_seq(n as int, w as int),
    decreases w,
{
    if w == 0 {
        let r = String::new();
        proof {
            assert(r@ =~= spec_padded_seq(n as int, 0));
        }
        r
    } else {
        let r = padded_string(n / 10, w - 1).concat(digit_str(n % 10));
        proof {
            assert(r@ =~= spec_padded_seq(n as int, w as int));
        }
        r
    }
}

/// `10^e` as a `u128`.
pub fn pow10_u128(e: u32) -> (r: u128)
    requires
        e <= 37,
    ensures
        r as int == pow10(e as nat),
{
    let mut r: u128 = 1;
    let mut k: u32 = 0;
    while k < e
        invariant
            k <= e <= 37,
            r as int == pow10(k as nat),
        decreases e - k,
    {
        proof {
            lemma_pow10_mono((k + 1) as nat, 37);
            lemma_pow10_consts();
        }
        r = r * 10;
        k += 1;
    }
    r
}

} // verus!
