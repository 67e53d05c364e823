//! The designation parser.
//!
//! A fit designation is one line of text: a nominal size (an integer part in
//! `[0, 3150]` without leading zeros, optionally followed by `.` or `,` and
//! one to three fraction digits), a field code (one run of letters, all
//! upper-case or all lower-case), and an accuracy grade in `[1, 18]` written
//! without a leading zero. The parser returns the normalized size text (comma
//! turned into a period), the field code as written, and the grade text, or
//! nothing when the text strays from the grammar in any way.

use crate::decimal::{
    all_digits, digit_run_len, digit_val, digits_val, is_digit, lemma_digit_run_determined,
    lemma_digit_run_props, lemma_digits_seq_val, lemma_digits_val_bound, lemma_digits_val_first,
    lemma_digits_val_step, lemma_pow10_consts, lemma_pow10_mono, pow10, spec_dec_parse,
    spec_digits_seq, DEC_INT_CAP,
};
use vstd::prelude::*;

verus! {

pub open spec fn is_upper_char(c: char) -> bool {
    'A' <= c && c <= 'Z'
}

pub open spec fn is_lower_char(c: char) -> bool {
    'a' <= c && c <= 'z'
}

pub open spec fn is_letter(c: char) -> bool {
    is_upper_char(c) || is_lower_char(c)
}

pub open spec fn all_upper(s: Seq<char>) -> bool {
    forall|i: int| 0 <= i < s.len() ==> is_upper_char(#[trigger] s[i])
}

pub open spec fn all_lower(s: Seq<char>) -> bool {
    forall|i: int| 0 <= i < s.len() ==> is_lower_char(#[trigger] s[i])
}

/// Length of the longest letter prefix.
pub open spec fn letter_run_len(s: Seq<char>) -> int
    decreases s.len(),
{
    if s.len() == 0 || !is_letter(s[0]) {
        0
    } else {
        1 + letter_run_len(s.skip(1))
    }
}

pub proof fn lemma_letter_run_props(s: Seq<char>)
    ensures
        0 <= letter_run_len(s) <= s.len(),
        forall|i: int| 0 <= i < letter_run_len(s) ==> is_letter(#[trigger] s[i]),
        letter_run_len(s) < s.len() ==> !is_letter(s[letter_run_len(s)]),
    decreases s.len(),
{
    if s.len() > 0 && is_letter(s[0]) {
        lemma_letter_run_props(s.skip(1));
        let run = letter_run_len(s);
        assert forall|i: int| 0 <= i < run implies is_letter(#[trigger] s[i]) by {
            if i >= 1 {
                assert(s.skip(1)[i - 1] == s[i]);
                assert(is_letter(s.skip(1)[i - 1]));
            }
        }
        if run < s.len() {
            assert(s.skip(1)[run - 1] == s[run]);
        }
    }
}

pub proof fn lemma_letter_run_determined(s: Seq<char>, k: int)
    requires
        0 <= k <= s.len(),
        forall|i: int| 0 <= i < k ==> is_letter(#[trigger] s[i]),
        k < s.len() ==> !is_letter(s[k]),
    ensures
        letter_run_len(s) == k,
    decreases s.len(),
{
    if s.len() == 0 || !is_letter(s[0]) {
        assert(k == 0) by {
            if k > 0 {
                assert(is_letter(s[0]));
            }
        }
    } else {
        assert(k >= 1) by {
            if k == 0 {
                assert(!is_letter(s[0]));
            }
        }
        assert forall|i: int| 0 <= i < k - 1 implies is_letter(#[trigger] s.skip(1)[i]) by {
            assert(s.skip(1)[i] == s[i + 1]);
            assert(is_letter(s[i + 1]));
        }
        if k - 1 < s.skip(1).len() {
            assert(s.skip(1)[k - 1] == s[k]);
        }
        lemma_letter_run_determined(s.skip(1), k - 1);
    }
}

/// The integer part of a size: at least one digit, no leading zero, at most 3150.
pub open spec fn size_int_ok(s: Seq<char>) -> bool {
    s.len() >= 1 && (s.len() == 1 || s[0] != '0') && digits_val(s) <= 3150
}

/// An accuracy grade: one digit `1..=9` or two digits `10..=18`.
pub open spec fn grade_ok(g: Seq<char>) -> bool {
    all_digits(g) && ((g.len() == 1 && 1 <= digits_val(g) <= 9) || (g.len() == 2 && 10
        <= digits_val(g) <= 18))
}

/// The designation grammar, as a deterministic decomposition: the maximal
/// digit run is the integer part, a `.` or `,` commits to one to three
/// fraction digits, the maximal letter run is the field code, and whatever
/// remains is the grade. The returned size text is already normalized.
pub open spec fn spec_parse_input(s: Seq<char>) -> Option<(Seq<char>, Seq<char>, Seq<char>)> {
    let ilen = digit_run_len(s);
    if !size_int_ok(s.take(ilen)) {
        None
    } else {
        let has_frac = ilen < s.len() && (s[ilen] == '.' || s[ilen] == ',');
        let flen = if has_frac {
            digit_run_len(s.skip(ilen + 1))
        } else {
            0
        };
        if has_frac && !(1 <= flen <= 3) {
            None
        } else {
            let k = if has_frac {
                ilen + 1 + flen
            } else {
                ilen
            };
            let size = if has_frac {
                s.take(ilen) + seq!['.'] + s.skip(ilen + 1).take(flen)
            } else {
                s.take(ilen)
            };
            let fl = letter_run_len(s.skip(k));
            if fl < 1 {
                None
            } else {
                let field = s.skip(k).take(fl);
                let grade = s.skip(k + fl);
                if (all_upper(field) || all_lower(field)) && grade_ok(grade) {
                    Some((size, field, grade))
                } else {
                    None
                }
            }
        }
    }
}

/// Tells a hole field code (all upper-case letters) from a shaft code.
pub fn is_uppercase(field: &str) -> (r: bool)
    ensures
        r == all_upper(field@),
{
    let n = field.unicode_len();
    let mut j: usize = 0;
    while j < n
        invariant
            n == field@.len(),
            0 <= j <= n,
            forall|i: int| 0 <= i < j ==> is_upper_char(#[trigger] field@[i]),
        decreases n - j,
    {
        let c = field.get_char(j);
        if !('A' <= c && c <= 'Z') {
            return false;
        }
        j += 1;
    }
    true
}

/// True when every character is a lower-case letter.
fn is_lowercase(field: &str) -> (r: bool)
    ensures
        r == all_lower(field@),
{
    let n = field.unicode_len();
    let mut j: usize = 0;
    while j < n
        invariant
            n == field@.len(),
            0 <= j <= n,
            forall|i: int| 0 <= i < j ==> is_lower_char(#[trigger] field@[i]),
        decreases n - j,
    {
        let c = field.get_char(j);
        if !('a' <= c && c <= 'z') {
            return false;
        }
        j += 1;
    }
    true
}

/// Normalizes a size text: every comma becomes a period.
pub fn replace_comma_with_dot(size: &str) -> (r: String)
    ensures
        r@.len() == size@.len(),
        forall|i: int|
            0 <= i < size@.len() ==> r@[i] == (if size@[i] == ',' {
                '.'
            } else {
                size@[i]
            }),
{
    let n = size.unicode_len();
    let mut out = String::new();
    let mut i: usize = 0;
    while i < n
        invariant
            n == size@.len(),
            0 <= i <= n,
            out@.len() == i,
            forall|t: int|
                0 <= t < i ==> out@[t] == (if size@[t] == ',' {
                    '.'
                } else {
                    size@[t]
                }),
        decreases n - i,
    {
        let c = size.get_char(i);
        if c == ',' {
            out.append(".");
            proof {
                reveal_strlit(".");
            }
        } else {
            let piece = size.substring_char(i, i + 1);
            out.append(piece);
        }
        i += 1;
    }
    out
}

/// Scans the maximal digit run of `s` starting at `from`.
fn digit_run_end(s: &str, from: usize, n: usize) -> (r: usize)
    requires
        from <= n,
        n == s@.len(),
    ensures
        from <= r <= n,
        digit_run_len(s@.skip(from as int)) == r - from,
        forall|i: int| from <= i < r ==> is_digit(#[trigger] s@[i]),
    decreases n - from,
{
    let ghost run = s@.skip(from as int);
    let mut j: usize = from;
    let mut done = false;
    while !done
        invariant
            from <= j <= n,
            n == s@.len(),
            run == s@.skip(from as int),
            forall|k: int| 0 <= k < j - from ==> is_digit(#[trigger] run[k]),
            done ==> j == n || !is_digit(run[j - from]),
        decreases n - j + (if done {
            0int
        } else {
            1int
        }),
    {
        if j == n {
            done = true;
        } else {
            let c = s.get_char(j);
            proof {
                assert(run[j - from] == s@[j as int]);
            }
            if '0' <= c && c <= '9' {
                j += 1;
            } else {
                done = true;
            }
        }
    }
    proof {
        lemma_digit_run_determined(run, j - from);
        assert(forall|i: int| from <= i < j ==> s@[i] == run[i - from]);
    }
    j
}

/// Scans the maximal letter run of `s` starting at `from`.
fn letter_run_end(s: &str, from: usize, n: usize) -> (r: usize)
    requires
        from <= n,
        n == s@.len(),
    ensures
        from <= r <= n,
        letter_run_len(s@.skip(from as int)) == r - from,
    decreases n - from,
{
    let ghost run = s@.skip(from as int);
    let mut j: usize = from;
    let mut done = false;
    while !done
        invariant
            from <= j <= n,
            n == s@.len(),
            run == s@.skip(from as int),
            forall|k: int| 0 <= k < j - from ==> is_letter(#[trigger] run[k]),
            done ==> j == n || !is_letter(run[j - from]),
        decreases n - j + (if done {
            0int
        } else {
            1int
        }),
    {
        if j == n {
            done = true;
        } else {
            let c = s.get_char(j);
            proof {
                assert(run[j - from] == s@[j as int]);
            }
            if ('A' <= c && c <= 'Z') || ('a' <= c && c <= 'z') {
                j += 1;
            } else {
                done = true;
            }
        }
    }
    proof {
        lemma_letter_run_determined(run, j - from);
    }
    j
}

/// Parses a designation into (normalized size text, field code, grade text).
#[verifier::loop_isolation(false)]
#[verifier::rlimit(50)]
pub fn parse_input(input: &str) -> (r: Option<(String, String, String)>)
    ensures
        match r {
            Some(t) => spec_parse_input(input@) == Some((t.0@, t.1@, t.2@)),
            None => spec_parse_input(input@) is None,
        },
{
    let n = input.unicode_len();
    let ghost view = input@;
    proof {
        assert(view.skip(0) =~= view);
    }
    let ilen = digit_run_end(input, 0, n);
    let ghost ipart = view.take(ilen as int);
    // integer part: nonempty, no leading zero, at most four digits
    if ilen == 0 {
        return None;
    }
    if ilen > 1 && input.get_char(0) == '0' {
        return None;
    }
    if ilen > 4 {
        proof {
            assert(all_digits(ipart)) by {
                assert(forall|i: int| 0 <= i < ilen ==> ipart[i] == view[i]);
            }
            lemma_digits_val_first(ipart);
            lemma_pow10_mono(4, (ilen - 1) as nat);
            lemma_pow10_consts();
            assert(pow10(4) == 10000);
        }
        return None;
    }
    let mut ival: u32 = 0;
    let mut t: usize = 0;
    while t < ilen
        invariant
            0 <= t <= ilen,
            ival as int == digits_val(view.take(t as int)),
            ival < 100000,
        decreases ilen - t,
    {
        let c = input.get_char(t);
        proof {
            lemma_digits_val_step(view, t as int);
            lemma_digits_val_bound(view.take(t as int));
            assert(all_digits(view.take(t as int))) by {
                assert(forall|i: int| 0 <= i < t ==> view.take(t as int)[i] == view[i]);
            }
            lemma_pow10_mono(t as nat, 4);
            lemma_pow10_consts();
            assert(pow10(4) == 10000);
        }
        ival = ival * 10 + (c as u32 - '0' as u32);
        t += 1;
    }
    proof {
        assert(view.take(t as int) == ipart);
    }
    if ival > 3150 {
        return None;
    }
    // optional fraction
    let mut has_frac = false;
    if ilen < n {
        let sep = input.get_char(ilen);
        if sep == '.' || sep == ',' {
            has_frac = true;
        }
    }
    let mut k = ilen;
    let mut flen: usize = 0;
    if has_frac {
        let fend = digit_run_end(input, ilen + 1, n);
        flen = fend - (ilen + 1);
        if flen < 1 || flen > 3 {
            return None;
        }
        k = fend;
    }
    // field code: one run of letters, uniformly cased
    let fl = letter_run_end(input, k, n);
    if fl == k {
        return None;
    }
    let field_part = input.substring_char(k, fl);
    let ghost field = view.skip(k as int).take((fl - k) as int);
    proof {
        assert(field_part@ =~= field);
    }
    let upper = is_uppercase(field_part);
    let lower = is_lowercase(field_part);
    if !(upper || lower) {
        return None;
    }
    // grade: the whole remainder, one digit 1..=9 or two digits 10..=18
    let grade_part = input.substring_char(fl, n);
    let ghost grade = view.skip(fl as int);
    proof {
        assert(grade_part@ =~= grade);
    }
    let glen = n - fl;
    if glen == 0 || glen > 2 {
        return None;
    }
    let c0 = grade_part.get_char(0);
    if !('0' <= c0 && c0 <= '9') {
        return None;
    }
    let mut gval: u32 = c0 as u32 - '0' as u32;
    proof {
        lemma_digits_val_step(grade, 0);
        assert(grade.take(0int) =~= Seq::<char>::empty());
        assert(digits_val(grade.take(1int)) == digit_val(grade[0]));
    }
    if glen == 2 {
        let c1 = grade_part.get_char(1);
        if !('0' <= c1 && c1 <= '9') {
            return None;
        }
        proof {
            lemma_digits_val_step(grade, 1);
        }
        gval = gval * 10 + (c1 as u32 - '0' as u32);
    }
    proof {
        assert(grade.take(glen as int) =~= grade);
    }
    if gval < 1 || gval > 18 {
        return None;
    }
    if glen == 2 && gval < 10 {
        return None;
    }
    // build the outputs
    let size: String;
    if has_frac {
        let int_part = input.substring_char(0, ilen);
        let frac_part = input.substring_char(ilen + 1, k);
        size = int_part.to_owned().concat(".").concat(frac_part);
        proof {
            reveal_strlit(".");
            assert("."@ =~= seq!['.']);
            assert(size@ =~= ipart + seq!['.'] + view.skip(ilen + 1).take((k - (ilen + 1)) as int));
        }
    } else {
        size = input.substring_char(0, ilen).to_owned();
        proof {
            assert(size@ =~= ipart);
        }
    }
    let field_out = field_part.to_owned();
    let grade_out = grade_part.to_owned();
    Some((size, field_out, grade_out))
}

/// The size text of every accepted designation is a decimal literal that the
/// calculator's conversion accepts: conversion of a parsed size cannot fail.
pub proof fn lemma_parsed_size_is_decimal(s: Seq<char>)
    requires
        spec_parse_input(s) is Some,
    ensures
        spec_dec_parse((spec_parse_input(s)->0).0) is Some,
{
    let size = (spec_parse_input(s)->0).0;
    let ilen = digit_run_len(s);
    let ipart = s.take(ilen);
    lemma_digit_run_props(s);
    assert(all_digits(ipart)) by {
        assert(forall|i: int| 0 <= i < ilen ==> #[trigger] ipart[i] == s[i]);
    }
    let has_frac = ilen < s.len() && (s[ilen] == '.' || s[ilen] == ',');
    lemma_pow10_consts();
    if has_frac {
        let flen = digit_run_len(s.skip(ilen + 1));
        let fpart = s.skip(ilen + 1).take(flen);
        lemma_digit_run_props(s.skip(ilen + 1));
        assert(all_digits(fpart)) by {
            assert(forall|i: int| 0 <= i < flen ==> #[trigger] fpart[i] == s.skip(ilen + 1)[i]);
        }
        assert(size == ipart + seq!['.'] + fpart);
        assert(size.len() == ilen + 1 + flen);
        assert(forall|i: int| 0 <= i < ilen ==> #[trigger] size[i] == ipart[i]);
        assert(size[ilen] == '.');
        assert(size[0] != '-');
        lemma_digit_run_determined(size, ilen);
        assert(size.take(ilen) =~= ipart);
        let rest = size.skip(ilen);
        assert(rest[0] == '.');
        assert(rest.skip(1) =~= fpart);
        assert(digits_val(ipart) < DEC_INT_CAP as int);
    } else {
        assert(size == ipart);
        assert(size.len() == ilen);
        assert(size[0] != '-');
        lemma_digit_run_determined(size, ilen);
        assert(size.take(ilen) =~= ipart);
        assert(size.skip(ilen).len() == 0);
        assert(digits_val(ipart) < DEC_INT_CAP as int);
    }
}

/// The grammar's size bands are exactly the integers up to 3150: a designation
/// built from the canonical digit text of `n`, any uniformly cased field code
/// and any well-formed grade is accepted if and only if `n <= 3150`; one unit
/// past the last band, the parser rejects.
pub proof fn lemma_parser_size_bands(n: nat, field: Seq<char>, grade: Seq<char>)
    requires
        field.len() >= 1,
        all_upper(field) || all_lower(field),
        grade_ok(grade),
    ensures
        spec_parse_input(spec_digits_seq(n as int) + field + grade) is Some <==> n <= 3150,
        n <= 3150 ==> spec_parse_input(spec_digits_seq(n as int) + field + grade) == Some(
            (spec_digits_seq(n as int), field, grade),
        ),
{
    let digits = spec_digits_seq(n as int);
    lemma_digits_seq_val(n as int);
    let s = digits + field + grade;
    let dl = digits.len() as int;
    assert(forall|i: int| 0 <= i < dl ==> #[trigger] s[i] == digits[i]);
    assert(s[dl] == field[0]);
    assert(is_letter(field[0]));
    assert(!is_digit(s[dl]));
    lemma_digit_run_determined(s, dl);
    assert(s.take(dl) =~= digits);
    // a letter is neither '.' nor ','
    assert(s[dl] != '.' && s[dl] != ',');
    let k = dl;
    // the letter run is exactly the field code: the grade starts with a digit
    assert(grade.len() >= 1);
    let tail = s.skip(k);
    assert(tail =~= field + grade);
    assert(forall|i: int| 0 <= i < field.len() ==> #[trigger] tail[i] == field[i]);
    assert(forall|i: int| 0 <= i < field.len() ==> is_letter(#[trigger] tail[i]));
    assert(tail[field.len() as int] == grade[0]);
    assert(is_digit(grade[0]));
    assert(!is_letter(tail[field.len() as int]));
    lemma_letter_run_determined(tail, field.len() as int);
    assert(tail.take(field.len() as int) =~= field);
    assert(s.skip(k + field.len()) =~= grade);
    if n <= 3150 {
        assert(size_int_ok(digits)) by {
            if digits.len() > 1 {
                assert(n >= 10) by {
                    if n < 10 {
                        assert(digits.len() == 1);
                    }
                }
            }
        }
        assert(spec_parse_input(s) is Some);
    } else {
        assert(digits_val(digits) > 3150);
        assert(!size_int_ok(digits));
        assert(spec_parse_input(s) is None);
    }
}

} // verus!
