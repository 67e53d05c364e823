use isofit::decimal::Decimal;
use isofit::resolver::search_in_tables;
use isofit::store::{ReferenceStore, SizeRange, TableColumn, TableRow, ToleranceTable};

fn dec(text: &str) -> Decimal {
    Decimal::from_str(text).unwrap()
}

fn col(name: &str, upper: &str, lower: &str) -> TableColumn {
    TableColumn { name: name.to_string(), upper: upper.to_string(), lower: lower.to_string() }
}

fn row(min: &str, max: &str, columns: Vec<TableColumn>) -> TableRow {
    TableRow { range: SizeRange { min: dec(min), max: dec(max) }, columns }
}

fn table(name: &str, rows: Vec<TableRow>) -> ToleranceTable {
    ToleranceTable { name: name.to_string(), rows }
}

/// A store carrying the reference entries that these tests exercise, laid out
/// as the published tables are: ascending disjoint-by-band rows per table,
/// blank or missing entries for unpublished combinations.
pub fn sample_store() -> ReferenceStore {
    let hole_a_c = table(
        "ISO_Hole_Limits_A_C",
        vec![
            row("0", "1", vec![col("A9", "", "")]),
            row("1", "3", vec![col("A9", "0.295", "0.27")]),
            row("80", "120", vec![col("B11", "0.46", "0.24")]),
            row("120", "180", vec![col("B11", "0.51", "0.26")]),
            row("400", "500", vec![col("C13", "1.45", "0.48")]),
        ],
    );
    let hole_h_js = table(
        "ISO_Hole_Limits_H_JS",
        vec![
            row("0", "3", vec![col("H1", "0.0008", "0")]),
            row("3", "6", vec![col("JS3", "0.00125", "-0.00125")]),
            row("2240", "2500", vec![col("JS18", "14", "-14")]),
            row("2800", "3150", vec![col("JS18", "16.5", "-16.5")]),
        ],
    );
    let shaft_a_c = table(
        "ISO_Shaft_Limits_a_c",
        vec![
            row("0", "3", vec![col("a9", "-0.27", "-0.295")]),
            row("80", "120", vec![col("b11", "-0.24", "-0.46")]),
            row("120", "180", vec![col("b11", "-0.26", "-0.51")]),
            row("400", "500", vec![col("c12", "-0.48", "-1.11")]),
        ],
    );
    let shaft_h_js = table(
        "ISO_Shaft_Limits_h_js",
        vec![
            row("0", "3", vec![col("h1", "0", "-0.0008")]),
            row("3", "6", vec![col("js3", "0.00125", "-0.00125")]),
            row("2240", "2500", vec![col("js18", "14", "-14")]),
            row("2800", "3150", vec![col("js18", "16.5", "-16.5")]),
        ],
    );
    ReferenceStore {
        hole_tables: vec![
            hole_a_c,
            table("ISO_Hole_Limits_CD_G", vec![]),
            hole_h_js,
            table("ISO_Hole_Limits_J_P", vec![]),
            table("ISO_Hole_Limits_R_S", vec![]),
            table("ISO_Hole_Limits_T_X", vec![]),
            table("ISO_Hole_Limits_Z_ZC", vec![]),
        ],
        shaft_tables: vec![
            shaft_a_c,
            table("ISO_Shaft_Limits_cd_g", vec![]),
            shaft_h_js,
            table("ISO_Shaft_Limits_j_p", vec![]),
            table("ISO_Shaft_Limits_r_s", vec![]),
            table("ISO_Shaft_Limits_t_u", vec![]),
            table("ISO_Shaft_Limits_v_zc", vec![]),
        ],
    }
}

fn pair(upper: &str, lower: &str) -> (String, String) {
    (upper.to_string(), lower.to_string())
}

#[test]
fn test_family_table_names() {
    let holes = isofit::store::family_table_names(&isofit::fields::ToleranceFamily::Hole);
    let shafts = isofit::store::family_table_names(&isofit::fields::ToleranceFamily::Shaft);
    assert_eq!(
        holes,
        vec![
            "ISO_Hole_Limits_A_C",
            "ISO_Hole_Limits_CD_G",
            "ISO_Hole_Limits_H_JS",
            "ISO_Hole_Limits_J_P",
            "ISO_Hole_Limits_R_S",
            "ISO_Hole_Limits_T_X",
            "ISO_Hole_Limits_Z_ZC",
        ]
    );
    assert_eq!(
        shafts,
        vec![
            "ISO_Shaft_Limits_a_c",
            "ISO_Shaft_Limits_cd_g",
            "ISO_Shaft_Limits_h_js",
            "ISO_Shaft_Limits_j_p",
            "ISO_Shaft_Limits_r_s",
            "ISO_Shaft_Limits_t_u",
            "ISO_Shaft_Limits_v_zc",
        ]
    );
}

#[test]
fn test_search_in_hole_tables() {
    let store = sample_store();
    assert!(search_in_tables(&store, "0.5", "A", "9").is_none());
    assert!(search_in_tables(&store, "1", "A", "9").is_none());
    assert_eq!(search_in_tables(&store, "1.001", "A", "9").unwrap(), pair("0.295", "0.27"));
    assert_eq!(search_in_tables(&store, "112", "B", "11").unwrap(), pair("0.46", "0.24"));
    assert_eq!(search_in_tables(&store, "120", "B", "11").unwrap(), pair("0.46", "0.24"));
    assert_eq!(search_in_tables(&store, "120.001", "B", "11").unwrap(), pair("0.51", "0.26"));
    assert_eq!(search_in_tables(&store, "475", "C", "13").unwrap(), pair("1.45", "0.48"));
    assert_eq!(search_in_tables(&store, "500", "C", "13").unwrap(), pair("1.45", "0.48"));
    assert!(search_in_tables(&store, "500.001", "C", "13").is_none());
    assert_eq!(search_in_tables(&store, "0", "H", "1").unwrap(), pair("0.0008", "0"));
    assert_eq!(search_in_tables(&store, "0.5", "H", "1").unwrap(), pair("0.0008", "0"));
    assert_eq!(search_in_tables(&store, "1", "H", "1").unwrap(), pair("0.0008", "0"));
    assert_eq!(search_in_tables(&store, "1.001", "H", "1").unwrap(), pair("0.0008", "0"));
    assert!(search_in_tables(&store, "0", "JS", "18").is_none());
    assert!(search_in_tables(&store, "0.5", "JS", "18").is_none());
    assert!(search_in_tables(&store, "1.001", "JS", "18").is_none());
    assert_eq!(search_in_tables(&store, "5", "JS", "3").unwrap(), pair("0.00125", "-0.00125"));
    assert_eq!(search_in_tables(&store, "2500", "JS", "18").unwrap(), pair("14", "-14"));
    assert_eq!(search_in_tables(&store, "3150", "JS", "18").unwrap(), pair("16.5", "-16.5"));
}

#[test]
fn test_search_in_shaft_tables() {
    let store = sample_store();
    assert_eq!(search_in_tables(&store, "0.5", "a", "9").unwrap(), pair("-0.27", "-0.295"));
    assert_eq!(search_in_tables(&store, "1", "a", "9").unwrap(), pair("-0.27", "-0.295"));
    assert_eq!(search_in_tables(&store, "1.001", "a", "9").unwrap(), pair("-0.27", "-0.295"));
    assert_eq!(search_in_tables(&store, "112", "b", "11").unwrap(), pair("-0.24", "-0.46"));
    assert_eq!(search_in_tables(&store, "120", "b", "11").unwrap(), pair("-0.24", "-0.46"));
    assert_eq!(search_in_tables(&store, "120.001", "b", "11").unwrap(), pair("-0.26", "-0.51"));
    assert_eq!(search_in_tables(&store, "475", "c", "12").unwrap(), pair("-0.48", "-1.11"));
    assert_eq!(search_in_tables(&store, "500", "c", "12").unwrap(), pair("-0.48", "-1.11"));
    assert!(search_in_tables(&store, "500.001", "c", "12").is_none());
    assert!(search_in_tables(&store, "500.001", "c", "13").is_none());
    assert_eq!(search_in_tables(&store, "0", "h", "1").unwrap(), pair("0", "-0.0008"));
    assert_eq!(search_in_tables(&store, "0.5", "h", "1").unwrap(), pair("0", "-0.0008"));
    assert_eq!(search_in_tables(&store, "1", "h", "1").unwrap(), pair("0", "-0.0008"));
    assert_eq!(search_in_tables(&store, "1.001", "h", "1").unwrap(), pair("0", "-0.0008"));
    assert!(search_in_tables(&store, "0", "js", "18").is_none());
    assert!(search_in_tables(&store, "0.5", "js", "18").is_none());
    assert!(search_in_tables(&store, "1.001", "js", "18").is_none());
    assert_eq!(search_in_tables(&store, "5", "js", "3").unwrap(), pair("0.00125", "-0.00125"));
    assert_eq!(search_in_tables(&store, "2500", "js", "18").unwrap(), pair("14", "-14"));
    assert_eq!(search_in_tables(&store, "3150", "js", "18").unwrap(), pair("16.5", "-16.5"));
}

// The case of the field code alone picks the family searched: the same size
// and grade answer from the hole tables for "K"-style codes and from the
// shaft tables for "k"-style codes.
#[test]
fn test_family_selection_by_case() {
    let mut store = sample_store();
    store.hole_tables[0].rows.push(row("5", "7", vec![col("K5", "0.009", "0.002")]));
    store.shaft_tables[0].rows.push(row("5", "7", vec![col("k5", "-0.002", "-0.009")]));
    assert_eq!(search_in_tables(&store, "6", "K", "5").unwrap(), pair("0.009", "0.002"));
    assert_eq!(search_in_tables(&store, "6", "k", "5").unwrap(), pair("-0.002", "-0.009"));
}

// A blank entry on either side means the combination is unpublished.
#[test]
fn test_blank_entry_is_no_match() {
    let store = ReferenceStore {
        hole_tables: vec![table(
            "ISO_Hole_Limits_A_C",
            vec![row("0", "10", vec![col("B7", "0.1", " "), col("C7", "", "0.2")])],
        )],
        shaft_tables: vec![],
    };
    assert!(search_in_tables(&store, "5", "B", "7").is_none());
    assert!(search_in_tables(&store, "5", "C", "7").is_none());
}

// The earliest matching band decides, even when a later band also matches.
#[test]
fn test_first_matching_band_is_authoritative() {
    let store = ReferenceStore {
        hole_tables: vec![table(
            "ISO_Hole_Limits_A_C",
            vec![
                row("0", "10", vec![col("B7", "0.1", "0.05")]),
                row("10", "20", vec![col("B7", "0.3", "0.15")]),
            ],
        )],
        shaft_tables: vec![],
    };
    assert_eq!(search_in_tables(&store, "10", "B", "7").unwrap(), pair("0.1", "0.05"));
    assert_eq!(search_in_tables(&store, "10.001", "B", "7").unwrap(), pair("0.3", "0.15"));
}
