//! Tolerance field codes and accuracy classes.
//!
//! A field code names the position of the tolerance zone: upper-case codes
//! are hole fields, lower-case codes are shaft fields, and the case decides
//! which family of reference tables a query searches.

use crate::parser::{all_upper, spec_parse_input};
use vstd::prelude::*;

verus! {

/// The accuracy classes for which the reference data publishes columns.
#[derive(Clone, Debug, Eq, Hash, PartialEq)]
pub enum Accuracy {
    Class4,
    Class5,
    Class6,
    Class7,
    Class8,
    Class9,
    Class10,
    Class11,
    Class12,
    Class13,
    Class14,
    Class15,
    Class16,
}

pub open spec fn spec_match_accuracy(value: u8) -> Option<Accuracy> {
    match value {
        4u8 => Some(Accuracy::Class4),
        5u8 => Some(Accuracy::Class5),
        6u8 => Some(Accuracy::Class6),
        7u8 => Some(Accuracy::Class7),
        8u8 => Some(Accuracy::Class8),
        9u8 => Some(Accuracy::Class9),
        10u8 => Some(Accuracy::Class10),
        11u8 => Some(Accuracy::Class11),
        12u8 => Some(Accuracy::Class12),
        13u8 => Some(Accuracy::Class13),
        14u8 => Some(Accuracy::Class14),
        15u8 => Some(Accuracy::Class15),
        16u8 => Some(Accuracy::Class16),
        _ => None,
    }
}

impl Accuracy {
    /// The class for a grade number, or nothing outside `[4, 16]`.
    pub fn match_accuracy(value: u8) -> (r: Option<Self>)
        ensures
            r == spec_match_accuracy(value),
            r is Some <==> 4 <= value <= 16,
    {
        match value {
            4 => Some(Accuracy::Class4),
            5 => Some(Accuracy::Class5),
            6 => Some(Accuracy::Class6),
            7 => Some(Accuracy::Class7),
            8 => Some(Accuracy::Class8),
            9 => Some(Accuracy::Class9),
            10 => Some(Accuracy::Class10),
            11 => Some(Accuracy::Class11),
            12 => Some(Accuracy::Class12),
            13 => Some(Accuracy::Class13),
            14 => Some(Accuracy::Class14),
            15 => Some(Accuracy::Class15),
            16 => Some(Accuracy::Class16),
            _ => None,
        }
    }
}

/// Shaft tolerance fields: lower-case codes.
#[allow(non_camel_case_types)]
#[derive(Clone, Debug, Eq, Hash, PartialEq)]
pub enum TolShaft {
    b,
    c,
    d,
    e,
    f,
    g,
    h,
    js,
    k,
    m,
    n,
    p,
    r,
    s,
    t,
    u,
    x,
    z,
}

/// Hole tolerance fields: upper-case codes.
#[derive(Clone, Debug, Eq, Hash, PartialEq)]
pub enum TolHole {
    A,
    B,
    C,
    D,
    E,
    F,
    G,
    H,
    JS,
    K,
    M,
    N,
    P,
    R,
    S,
    T,
    U,
}

/// A tolerance field, tagged with its family.
#[derive(Clone, Debug, Eq, Hash, PartialEq)]
pub enum ToleranceField {
    Shaft(TolShaft),
    Hole(TolHole),
}

/// The field named by a single-letter code.
pub open spec fn spec_field_of_char(c: char) -> Result<ToleranceField, ()> {
    if c == 'b' {
        Ok(ToleranceField::Shaft(TolShaft::b))
    } else if c == 'c' {
        Ok(ToleranceField::Shaft(TolShaft::c))
    } else if c == 'd' {
        Ok(ToleranceField::Shaft(TolShaft::d))
    } else if c == 'e' {
        Ok(ToleranceField::Shaft(TolShaft::e))
    } else if c == 'f' {
        Ok(ToleranceField::Shaft(TolShaft::f))
    } else if c == 'g' {
        Ok(ToleranceField::Shaft(TolShaft::g))
    } else if c == 'h' {
        Ok(ToleranceField::Shaft(TolShaft::h))
    } else if c == 'k' {
        Ok(ToleranceField::Shaft(TolShaft::k))
    } else if c == 'm' {
        Ok(ToleranceField::Shaft(TolShaft::m))
    } else if c == 'n' {
        Ok(ToleranceField::Shaft(TolShaft::n))
    } else if c == 'p' {
        Ok(ToleranceField::Shaft(TolShaft::p))
    } else if c == 'r' {
        Ok(ToleranceField::Shaft(TolShaft::r))
    } else if c == 's' {
        Ok(ToleranceField::Shaft(TolShaft::s))
    } else if c == 't' {
        Ok(ToleranceField::Shaft(TolShaft::t))
    } else if c == 'u' {
        Ok(ToleranceField::Shaft(TolShaft::u))
    } else if c == 'x' {
        Ok(ToleranceField::Shaft(TolShaft::x))
    } else if c == 'z' {
        Ok(ToleranceField::Shaft(TolShaft::z))
    } else if c == 'A' {
        Ok(ToleranceField::Hole(TolHole::A))
    } else if c == 'B' {
        Ok(ToleranceField::Hole(TolHole::B))
    } else if c == 'C' {
        Ok(ToleranceField::Hole(TolHole::C))
    } else if c == 'D' {
        Ok(ToleranceField::Hole(TolHole::D))
    } else if c == 'E' {
        Ok(ToleranceField::Hole(TolHole::E))
    } else if c == 'F' {
        Ok(ToleranceField::Hole(TolHole::F))
    } else if c == 'G' {
        Ok(ToleranceField::Hole(TolHole::G))
    } else if c == 'H' {
        Ok(ToleranceField::Hole(TolHole::H))
    } else if c == 'K' {
        Ok(ToleranceField::Hole(TolHole::K))
    } else if c == 'M' {
        Ok(ToleranceField::Hole(TolHole::M))
    } else if c == 'N' {
        Ok(ToleranceField::Hole(TolHole::N))
    } else if c == 'P' {
        Ok(ToleranceField::Hole(TolHole::P))
    } else if c == 'R' {
        Ok(ToleranceField::Hole(TolHole::R))
    } else if c == 'S' {
        Ok(ToleranceField::Hole(TolHole::S))
    } else if c == 'T' {
        Ok(ToleranceField::Hole(TolHole::T))
    } else if c == 'U' {
        Ok(ToleranceField::Hole(TolHole::U))
    } else {
        Err(())
    }
}

/// The field named by a code text: single letters, plus `js` and `JS`.
pub open spec fn spec_field_from(s: Seq<char>) -> Result<ToleranceField, ()> {
    if s.len() == 1 {
        spec_field_of_char(s[0])
    } else if s.len() == 2 {
        if s[0] == 'j' && s[1] == 's' {
            Ok(ToleranceField::Shaft(TolShaft::js))
        } else if s[0] == 'J' && s[1] == 'S' {
            Ok(ToleranceField::Hole(TolHole::JS))
        } else {
            Err(())
        }
    } else {
        Err(())
    }
}

impl ToleranceField {
    /// Reads a field code into its typed form; codes outside the published
    /// hole and shaft ranges are rejected.
    pub fn from_str(s: &str) -> (r: Result<ToleranceField, ()>)
        ensures
            r == spec_field_from(s@),
    {
        let n = s.unicode_len();
        if n == 1 {
            let c = s.get_char(0);
            match c {
                'b' => Ok(ToleranceField::Shaft(TolShaft::b)),
                'c' => Ok(ToleranceField::Shaft(TolShaft::c)),
                'd' => Ok(ToleranceField::Shaft(TolShaft::d)),
                'e' => Ok(ToleranceField::Shaft(TolShaft::e)),
                'f' => Ok(ToleranceField::Shaft(TolShaft::f)),
                'g' => Ok(ToleranceField::Shaft(TolShaft::g)),
                'h' => Ok(ToleranceField::Shaft(TolShaft::h)),
                'k' => Ok(ToleranceField::Shaft(TolShaft::k)),
                'm' => Ok(ToleranceField::Shaft(TolShaft::m)),
                'n' => Ok(ToleranceField::Shaft(TolShaft::n)),
                'p' => Ok(ToleranceField::Shaft(TolShaft::p)),
                'r' => Ok(ToleranceField::Shaft(TolShaft::r)),
                's' => Ok(ToleranceField::Shaft(TolShaft::s)),
                't' => Ok(ToleranceField::Shaft(TolShaft::t)),
                'u' => Ok(ToleranceField::Shaft(TolShaft::u)),
                'x' => Ok(ToleranceField::Shaft(TolShaft::x)),
                'z' => Ok(ToleranceField::Shaft(TolShaft::z)),
                'A' => Ok(ToleranceField::Hole(TolHole::A)),
                'B' => Ok(ToleranceField::Hole(TolHole::B)),
                'C' => Ok(ToleranceField::Hole(TolHole::C)),
                'D' => Ok(ToleranceField::Hole(TolHole::D)),
                'E' => Ok(ToleranceField::Hole(TolHole::E)),
                'F' => Ok(ToleranceField::Hole(TolHole::F)),
                'G' => Ok(ToleranceField::Hole(TolHole::G)),
                'H' => Ok(ToleranceField::Hole(TolHole::H)),
                'K' => Ok(ToleranceField::Hole(TolHole::K)),
                'M' => Ok(ToleranceField::Hole(TolHole::M)),
                'N' => Ok(ToleranceField::Hole(TolHole::N)),
                'P' => Ok(ToleranceField::Hole(TolHole::P)),
                'R' => Ok(ToleranceField::Hole(TolHole::R)),
                'S' => Ok(ToleranceField::Hole(TolHole::S)),
                'T' => Ok(ToleranceField::Hole(TolHole::T)),
                'U' => Ok(ToleranceField::Hole(TolHole::U)),
                _ => Err(()),
            }
        } else if n == 2 {
            let c0 = s.get_char(0);
            let c1 = s.get_char(1);
            if c0 == 'j' && c1 == 's' {
                Ok(ToleranceField::Shaft(TolShaft::js))
            } else if c0 == 'J' && c1 == 'S' {
                Ok(ToleranceField::Hole(TolHole::JS))
            } else {
                Err(())
            }
        } else {
            Err(())
        }
    }
}

/// A field paired with an accuracy class: the typed form of a column name.
#[derive(Clone, Debug, Eq, Hash, PartialEq)]
pub struct ToleranceAccuracy {
    pub tolerance: ToleranceField,
    pub accuracy: Accuracy,
}

/// The two families of tolerance fields.
#[derive(Clone, Copy, Debug, Eq, PartialEq, Structural)]
pub enum ToleranceFamily {
    Hole,
    Shaft,
}

/// Classifies a field code by its case: a code is in the hole family exactly
/// when every character is an upper-case letter, else in the shaft family.
pub fn classify(field: &str) -> (r: ToleranceFamily)
    ensures
        r == (if all_upper(field@) {
            ToleranceFamily::Hole
        } else {
            ToleranceFamily::Shaft
        }),
{
    if crate::parser::is_uppercase(field) {
        ToleranceFamily::Hole
    } else {
        ToleranceFamily::Shaft
    }
}

/// Case purity: the parser never returns a mixed-case field code, and the
/// code's case decides the family — uniformly upper-case codes classify as
/// holes, anything else as shafts.
pub proof fn lemma_field_case_pure(s: Seq<char>, field: Seq<char>)
    requires
        spec_parse_input(s) is Some,
        field == (spec_parse_input(s)->0).1,
    ensures
        crate::parser::all_upper(field) || crate::parser::all_lower(field),
        field.len() >= 1,
{
    let ilen = crate::decimal::digit_run_len(s);
    crate::decimal::lemma_digit_run_props(s);
    let has_frac = ilen < s.len() && (s[ilen] == '.' || s[ilen] == ',');
    let flen = if has_frac {
        crate::decimal::digit_run_len(s.skip(ilen + 1))
    } else {
        0
    };
    if has_frac {
        crate::decimal::lemma_digit_run_props(s.skip(ilen + 1));
    }
    let k = if has_frac {
        ilen + 1 + flen
    } else {
        ilen
    };
    crate::parser::lemma_letter_run_props(s.skip(k));
}

} // verus!
