use isofit::decimal::Decimal;
use isofit::resolve::{resolve_designation, ResolveOutcome};
use isofit::store::{ReferenceStore, SizeRange, TableColumn, TableRow, ToleranceTable};

fn dec(text: &str) -> Decimal {
    Decimal::from_str(text).unwrap()
}

fn col(name: &str, upper: &str, lower: &str) -> TableColumn {
    TableColumn { name: name.to_string(), upper: upper.to_string(), lower: lower.to_string() }
}

fn row(min: &str, max: &str, columns: Vec<TableColumn>) -> TableRow {
    TableRow { range: SizeRange { min: dec(min), max: dec(max) }, columns }
}

fn table(name: &str, rows: Vec<TableRow>) -> ToleranceTable {
    ToleranceTable { name: name.to_string(), rows }
}

fn scenario_store() -> ReferenceStore {
    ReferenceStore {
        hole_tables: vec![
            table(
                "ISO_Hole_Limits_A_C",
                vec![
                    row("0", "1", vec![col("B11", "", "")]),
                    row("80", "120", vec![col("B11", "0.46", "0.24")]),
                ],
            ),
            table("ISO_Hole_Limits_CD_G", vec![]),
            table(
                "ISO_Hole_Limits_H_JS",
                vec![
                    row("0", "3", vec![col("H1", "0.0008", "0")]),
                    row("3", "6", vec![col("JS3", "0.00125", "-0.00125")]),
                ],
            ),
        ],
        shaft_tables: vec![
            table(
                "ISO_Shaft_Limits_a_c",
                vec![row("400", "500", vec![col("c12", "-0.48", "-1.11")])],
            ),
            table(
                "ISO_Shaft_Limits_h_js",
                vec![row("3", "6", vec![col("js3", "0.00125", "-0.00125")])],
            ),
        ],
    }
}

fn resolved(outcome: ResolveOutcome) -> isofit::resolve::ResolvedFit {
    match outcome {
        ResolveOutcome::Resolved(f) => f,
        other => panic!("expected a resolved fit, got {:?}", other),
    }
}

// A well-formed designation whose size falls outside every published band of
// its family answers "not found", which is not an error.
#[test]
fn test_scenario_not_found_low_band() {
    let store = scenario_store();
    assert_eq!(resolve_designation(&store, "1.001B11"), ResolveOutcome::NotFound);
}

#[test]
fn test_scenario_hole_b11() {
    let store = scenario_store();
    let fit = resolved(resolve_designation(&store, "112B11"));
    assert_eq!(fit.designation, "112B11");
    assert_eq!(fit.upper_tol, "0.46");
    assert_eq!(fit.lower_tol, "0.24");
    assert_eq!(fit.average_tol, "0.35");
    assert_eq!(fit.max_size, "112.46");
    assert_eq!(fit.min_size, "112.24");
    assert_eq!(fit.average_size, "112.35");
}

#[test]
fn test_scenario_hole_h1_at_zero() {
    let store = scenario_store();
    let fit = resolved(resolve_designation(&store, "0H1"));
    assert_eq!(fit.upper_tol, "0.0008");
    assert_eq!(fit.lower_tol, "0");
    assert_eq!(fit.average_tol, "0.0004");
    assert_eq!(fit.max_size, "0.0008");
    assert_eq!(fit.min_size, "0");
    assert_eq!(fit.average_size, "0.0004");
}

#[test]
fn test_scenario_shaft_js3() {
    let store = scenario_store();
    let fit = resolved(resolve_designation(&store, "5js3"));
    assert_eq!(fit.upper_tol, "0.00125");
    assert_eq!(fit.lower_tol, "-0.00125");
    assert_eq!(fit.average_tol, "0");
    assert_eq!(fit.max_size, "5.00125");
    assert_eq!(fit.min_size, "4.99875");
    assert_eq!(fit.average_size, "5");
}

#[test]
fn test_scenario_shaft_not_found_past_band() {
    let store = scenario_store();
    assert_eq!(resolve_designation(&store, "500.001c12"), ResolveOutcome::NotFound);
}

#[test]
fn test_scenario_malformed_designation() {
    let store = scenario_store();
    assert_eq!(resolve_designation(&store, "1.6853K2"), ResolveOutcome::ParseFailure);
    assert_eq!(resolve_designation(&store, ""), ResolveOutcome::ParseFailure);
    assert_eq!(resolve_designation(&store, "5Ab7"), ResolveOutcome::ParseFailure);
}

// A retrieved text that is not a decimal literal is a conversion failure,
// distinct from "not found": it points at the reference data itself.
#[test]
fn test_scenario_conversion_failure() {
    let store = ReferenceStore {
        hole_tables: vec![table(
            "ISO_Hole_Limits_A_C",
            vec![row("0", "10", vec![col("B7", "bad", "0.1")])],
        )],
        shaft_tables: vec![],
    };
    assert_eq!(resolve_designation(&store, "5B7"), ResolveOutcome::ConversionFailure);
}

// Idempotence: resolving the same designation twice gives identical results.
#[test]
fn test_resolution_idempotent() {
    let store = scenario_store();
    for input in ["112B11", "0H1", "5js3", "1.001B11", "1.6853K2"] {
        let first = resolve_designation(&store, input);
        let second = resolve_designation(&store, input);
        assert_eq!(first, second);
    }
}
