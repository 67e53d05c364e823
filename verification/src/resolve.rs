//! The query pipeline: parse, search, compute.
//!
//! Each designation is resolved independently against an immutable store;
//! there is no state carried between queries, so the outcome is a function of
//! the store and the input text alone.

use crate::calc::{calc_average_tol, calc_sizes_with_tols, size_tols_map_decimal, spec_avg_units};
use crate::decimal::{spec_dec_parse, spec_dec_string};
use crate::parser::{lemma_parsed_size_is_decimal, parse_input, spec_parse_input};
use crate::resolver::{search_in_tables, spec_search_store};
use crate::store::{ReferenceStore, ToleranceValue};
use vstd::prelude::*;

verus! {

/// One resolved designation: the three size texts, the deviation texts that
/// produced them, the rounded average deviation, and the designation echoed.
#[derive(Clone, Debug, Eq, PartialEq)]
pub struct ResolvedFit {
    pub designation: String,
    pub average_size: String,
    pub max_size: String,
    pub min_size: String,
    pub upper_tol: String,
    pub lower_tol: String,
    pub average_tol: String,
}

/// The outcome of one query: a resolved fit, a legitimate empty answer, or
/// one of the two failure kinds, kept distinct. A malformed designation is a
/// parse failure; a retrieved text that is not a decimal literal is a
/// conversion failure, which points at the reference data itself.
#[derive(Clone, Debug, Eq, PartialEq)]
pub enum ResolveOutcome {
    Resolved(ResolvedFit),
    NotFound,
    ParseFailure,
    ConversionFailure,
}

/// The mathematical image of a resolved designation.
pub struct ResolvedModel {
    pub designation: Seq<char>,
    pub average_size: Seq<char>,
    pub max_size: Seq<char>,
    pub min_size: Seq<char>,
    pub upper_tol: Seq<char>,
    pub lower_tol: Seq<char>,
    pub average_tol: Seq<char>,
}

/// The mathematical image of an outcome.
pub enum OutcomeModel {
    Resolved(ResolvedModel),
    NotFound,
    ParseFailure,
    ConversionFailure,
}

pub open spec fn outcome_model(r: ResolveOutcome) -> OutcomeModel {
    match r {
        ResolveOutcome::Resolved(f) => OutcomeModel::Resolved(
            ResolvedModel {
                designation: f.designation@,
                average_size: f.average_size@,
                max_size: f.max_size@,
                min_size: f.min_size@,
                upper_tol: f.upper_tol@,
                lower_tol: f.lower_tol@,
                average_tol: f.average_tol@,
            },
        ),
        ResolveOutcome::NotFound => OutcomeModel::NotFound,
        ResolveOutcome::ParseFailure => OutcomeModel::ParseFailure,
        ResolveOutcome::ConversionFailure => OutcomeModel::ConversionFailure,
    }
}

/// What resolving a designation must answer, for every input text and store.
pub open spec fn spec_resolve(store: &ReferenceStore, input: Seq<char>) -> OutcomeModel {
    match spec_parse_input(input) {
        None => OutcomeModel::ParseFailure,
        Some(t) => match spec_search_store(store, t.0, t.1, t.2) {
            None => OutcomeModel::NotFound,
            Some(pair) => {
                if spec_dec_parse(t.0) is Some && spec_dec_parse(pair.0) is Some && spec_dec_parse(
                    pair.1,
                ) is Some {
                    let su = spec_dec_parse(t.0)->0;
                    let uu = spec_dec_parse(pair.0)->0;
                    let lu = spec_dec_parse(pair.1)->0;
                    let au = spec_avg_units(uu, lu);
                    OutcomeModel::Resolved(
                        ResolvedModel {
                            designation: input,
                            average_size: spec_dec_string(su + au),
                            max_size: spec_dec_string(su + uu),
                            min_size: spec_dec_string(su + lu),
                            upper_tol: pair.0,
                            lower_tol: pair.1,
                            average_tol: spec_dec_string(au),
                        },
                    )
                } else {
                    OutcomeModel::ConversionFailure
                }
            },
        },
    }
}

/// Resolves one designation against the store: parses it, searches the
/// family's tables, converts the deviation pair and computes the sizes.
pub fn resolve_designation(store: &ReferenceStore, input: &str) -> (r: ResolveOutcome)
    ensures
        outcome_model(r) == spec_resolve(store, input@),
{
    let parsed = match parse_input(input) {
        Some(t) => t,
        None => {
            return ResolveOutcome::ParseFailure;
        },
    };
    let (size_text, field, accuracy) = parsed;
    proof {
        lemma_parsed_size_is_decimal(input@);
    }
    let found = match search_in_tables(
        store,
        size_text.as_str(),
        field.as_str(),
        accuracy.as_str(),
    ) {
        Some(p) => p,
        None => {
            return ResolveOutcome::NotFound;
        },
    };
    let (upper_txt, lower_txt) = found;
    let decs = match size_tols_map_decimal(
        size_text.as_str(),
        (upper_txt.as_str(), lower_txt.as_str()),
    ) {
        Some(t) => t,
        None => {
            return ResolveOutcome::ConversionFailure;
        },
    };
    let (size_dec, upper_dec, lower_dec) = decs;
    let tols = ToleranceValue { upper: upper_dec, lower: lower_dec };
    let average_tol = calc_average_tol(&tols.upper, &tols.lower);
    let sizes = calc_sizes_with_tols((size_dec, upper_dec, lower_dec), average_tol);
    ResolveOutcome::Resolved(
        ResolvedFit {
            designation: input.to_owned(),
            average_size: sizes.0,
            max_size: sizes.1,
            min_size: sizes.2,
            upper_tol: upper_txt,
            lower_tol: lower_txt,
            average_tol: average_tol.to_string(),
        },
    )
}

/// Idempotence: the outcome is a function of the store and the input text
/// alone, so two resolutions of the same designation against the same store
/// agree — there is no hidden state.
pub proof fn lemma_resolution_deterministic(
    store: &ReferenceStore,
    input: &str,
    r1: ResolveOutcome,
    r2: ResolveOutcome,
)
    requires
        outcome_model(r1) == spec_resolve(store, input@),
        outcome_model(r2) == spec_resolve(store, input@),
    ensures
        outcome_model(r1) == outcome_model(r2),
{
}

} // verus!
