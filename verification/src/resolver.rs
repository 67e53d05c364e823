//! The table resolver.
//!
//! Given a size, a field code and a grade, the resolver builds the column
//! name, selects the family's tables by the case of the field code, and scans
//! them in order. Within a table, the earliest row whose inclusive band holds
//! the size decides: if that row publishes both deviation texts under the
//! column, the table answers them; a missing column or a blank text means the
//! table has no answer. The first table with an answer is authoritative.

use crate::decimal::{spec_dec_parse, Decimal};
use crate::parser::all_upper;
use crate::store::{ReferenceStore, SizeRange, TableColumn, TableRow, ToleranceTable};
use vstd::prelude::*;

verus! {

pub open spec fn is_space(c: char) -> bool {
    c == ' ' || c == '\t' || c == '\n' || c == '\r'
}

/// Blank texts stand for combinations the reference data does not publish.
pub open spec fn spec_blank(s: Seq<char>) -> bool {
    forall|i: int| 0 <= i < s.len() ==> is_space(#[trigger] s[i])
}

/// True when the text is empty or all whitespace.
pub fn is_blank(s: &str) -> (r: bool)
    ensures
        r == spec_blank(s@),
{
    let n = s.unicode_len();
    let mut j: usize = 0;
    while j < n
        invariant
            n == s@.len(),
            0 <= j <= n,
            forall|i: int| 0 <= i < j ==> is_space(#[trigger] s@[i]),
        decreases n - j,
    {
        let c = s.get_char(j);
        if !(c == ' ' || c == '\t' || c == '\n' || c == '\r') {
            return false;
        }
        j += 1;
    }
    true
}

/// Inclusive on both ends: a size equal to either boundary matches the band.
pub open spec fn spec_range_contains(r: SizeRange, size_units: int) -> bool {
    r.min.units() <= size_units <= r.max.units()
}

/// Range inclusivity: a size exactly on a band boundary, lower or upper,
/// matches that band.
pub proof fn lemma_range_boundary_inclusive(r: SizeRange, size_units: int)
    requires
        r.min.units() <= r.max.units(),
        size_units == r.min.units() || size_units == r.max.units(),
    ensures
        spec_range_contains(r, size_units),
{
}

/// The earliest row whose band holds the size.
pub open spec fn spec_first_row(rows: Seq<TableRow>, size_units: int) -> Option<TableRow>
    decreases rows.len(),
{
    if rows.len() == 0 {
        None
    } else if spec_range_contains(rows[0].range, size_units) {
        Some(rows[0])
    } else {
        spec_first_row(rows.drop_first(), size_units)
    }
}

/// The earliest column entry under the given name.
pub open spec fn spec_first_column(cols: Seq<TableColumn>, name: Seq<char>) -> Option<TableColumn>
    decreases cols.len(),
{
    if cols.len() == 0 {
        None
    } else if cols[0].name@ == name {
        Some(cols[0])
    } else {
        spec_first_column(cols.drop_first(), name)
    }
}

/// What one table answers: the deviation texts of the earliest matching row
/// under the column, or nothing when the row, the column, or either text is
/// missing or blank.
pub open spec fn spec_table_lookup(t: ToleranceTable, size_units: int, col: Seq<char>) -> Option<
    (Seq<char>, Seq<char>),
> {
    match spec_first_row(t.rows@, size_units) {
        None => None,
        Some(row) => match spec_first_column(row.columns@, col) {
            None => None,
            Some(c) => if spec_blank(c.upper@) || spec_blank(c.lower@) {
                None
            } else {
                Some((c.upper@, c.lower@))
            },
        },
    }
}

/// The first non-empty answer among the tables, in order.
pub open spec fn spec_search_family(
    tables: Seq<ToleranceTable>,
    size_units: int,
    col: Seq<char>,
) -> Option<(Seq<char>, Seq<char>)>
    decreases tables.len(),
{
    if tables.len() == 0 {
        None
    } else {
        match spec_table_lookup(tables[0], size_units, col) {
            Some(p) => Some(p),
            None => spec_search_family(tables.drop_first(), size_units, col),
        }
    }
}

/// What a whole query answers: the column is the field code and grade run
/// together, and the family searched is decided by the case of the field.
pub open spec fn spec_search_store(
    store: &ReferenceStore,
    size_text: Seq<char>,
    field: Seq<char>,
    accuracy: Seq<char>,
) -> Option<(Seq<char>, Seq<char>)> {
    let size_units = spec_dec_parse(size_text)->0;
    let col = field + accuracy;
    if all_upper(field) {
        spec_search_family(store.hole_tables@, size_units, col)
    } else {
        spec_search_family(store.shaft_tables@, size_units, col)
    }
}

/// One table's answer for a size and a column name.
#[verifier::loop_isolation(false)]
pub fn search_in_table(table: &ToleranceTable, size: &Decimal, column: &String) -> (r: Option<
    (String, String),
>)
    ensures
        match r {
            Some(p) => spec_table_lookup(*table, size.units(), column@) == Some((p.0@, p.1@)),
            None => spec_table_lookup(*table, size.units(), column@) is None,
        },
{
    let ghost rows = table.rows@;
    proof {
        assert(rows.skip(0) =~= rows);
    }
    let nrows = table.rows.len();
    let mut i: usize = 0;
    while i < nrows
        invariant
            0 <= i <= nrows,
            spec_first_row(rows, size.units()) == spec_first_row(
                rows.skip(i as int),
                size.units(),
            ),
        decreases nrows - i,
    {
        let row = &table.rows[i];
        proof {
            assert(rows.skip(i as int)[0] == rows[i as int]);
        }
        if row.range.min.le(size) && size.le(&row.range.max) {
            // this band decides the query for this table
            let ncols = row.columns.len();
            let ghost cols = row.columns@;
            proof {
                assert(cols.skip(0) =~= cols);
            }
            let mut j: usize = 0;
            while j < ncols
                invariant
                    0 <= j <= ncols,
                    spec_first_column(cols, column@) == spec_first_column(
                        cols.skip(j as int),
                        column@,
                    ),
                decreases ncols - j,
            {
                let c = &row.columns[j];
                proof {
                    assert(cols.skip(j as int)[0] == cols[j as int]);
                }
                if c.name.eq(column) {
                    if is_blank(c.upper.as_str()) || is_blank(c.lower.as_str()) {
                        return None;
                    }
                    return Some((c.upper.clone(), c.lower.clone()));
                }
                proof {
                    assert(cols.skip(j as int).drop_first() =~= cols.skip(j + 1));
                }
                j += 1;
            }
            proof {
                assert(cols.skip(ncols as int).len() == 0);
            }
            return None;
        }
        proof {
            assert(rows.skip(i as int).drop_first() =~= rows.skip(i + 1));
        }
        i += 1;
    }
    proof {
        assert(rows.skip(nrows as int).len() == 0);
    }
    None
}

/// Searches the family selected by the field code's case, table by table in
/// the fixed order, and returns the first non-empty deviation pair; a
/// well-formed designation with no published entry answers nothing.
#[verifier::loop_isolation(false)]
pub fn search_in_tables(store: &ReferenceStore, size: &str, field: &str, accuracy: &str) -> (r:
    Option<(String, String)>)
    requires
        spec_dec_parse(size@) is Some,
    ensures
        match r {
            Some(p) => spec_search_store(store, size@, field@, accuracy@) == Some((p.0@, p.1@)),
            None => spec_search_store(store, size@, field@, accuracy@) is None,
        },
{
    let d = match Decimal::from_str(size) {
        Some(d) => d,
        // the caller guarantees that the size text is a decimal literal
        None => vstd::pervasive::unreached(),
    };
    let column: String = field.to_owned().concat(accuracy);
    let tables: &Vec<ToleranceTable> = if crate::parser::is_uppercase(field) {
        &store.hole_tables
    } else {
        &store.shaft_tables
    };
    let ghost ts = tables@;
    proof {
        assert(ts.skip(0) =~= ts);
    }
    let n = tables.len();
    let mut i: usize = 0;
    while i < n
        invariant
            0 <= i <= n,
            spec_search_family(ts, d.units(), column@) == spec_search_family(
                ts.skip(i as int),
                d.units(),
                column@,
            ),
        decreases n - i,
    {
        proof {
            assert(ts.skip(i as int)[0] == ts[i as int]);
        }
        if let Some(p) = search_in_table(&tables[i], &d, &column) {
            return Some(p);
        }
        proof {
            assert(ts.skip(i as int).drop_first() =~= ts.skip(i + 1));
        }
        i += 1;
    }
    proof {
        assert(ts.skip(n as int).len() == 0);
    }
    None
}

} // verus!
