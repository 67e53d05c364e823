//! The in-memory reference store.
//!
//! The limit tables are owned by an external reference-data service; at
//! startup the process loads them, in the fixed search order of each family,
//! into this store and hands the store to the resolver. Every query after
//! that is a pure read: the resolver never mutates the store.
//!
//! A structural fault of the external service — a transport failure, a band
//! bound that is not a number — surfaces where the store is loaded, before
//! any query runs; the resolver itself only ever sees a well-formed store,
//! so its empty answer always means "no published entry".

use crate::decimal::Decimal;
use crate::fields::ToleranceFamily;
use vstd::prelude::*;

verus! {

/// An inclusive size band: a size matches when `min <= size <= max`.
#[derive(Clone, Copy, Debug, Eq, PartialEq, Structural)]
pub struct SizeRange {
    pub min: Decimal,
    pub max: Decimal,
}

/// A resolved deviation pair as exact decimals.
#[derive(Clone, Copy, Debug, Eq, PartialEq, Structural)]
pub struct ToleranceValue {
    pub upper: Decimal,
    pub lower: Decimal,
}

/// One column of a table row: the upper and lower deviation texts published
/// for one field-and-grade combination. A blank entry means "not published".
#[derive(Clone, Debug)]
pub struct TableColumn {
    pub name: String,
    pub upper: String,
    pub lower: String,
}

/// One row of a reference table: an inclusive size band and its columns.
#[derive(Clone, Debug)]
pub struct TableRow {
    pub range: SizeRange,
    pub columns: Vec<TableColumn>,
}

/// A reference table: a named, ordered list of size-band rows. The bands of
/// one table are expected to be listed in ascending order; the earliest
/// matching band answers a query.
#[derive(Clone, Debug)]
pub struct ToleranceTable {
    pub name: String,
    pub rows: Vec<TableRow>,
}

impl ToleranceTable {
    /// An empty table under a given name; the loader adds rows in band order.
    pub fn new(name: String) -> (t: Self)
        ensures
            t.name@ == name@,
            t.rows@.len() == 0,
    {
        ToleranceTable { name, rows: Vec::new() }
    }
}

/// The reference store: the tables of both families, each vector in the
/// fixed search order that `family_table_names` lists.
#[derive(Clone, Debug)]
pub struct ReferenceStore {
    pub hole_tables: Vec<ToleranceTable>,
    pub shaft_tables: Vec<ToleranceTable>,
}

impl ReferenceStore {
    /// A store with no tables; the loader fills both families.
    pub fn new() -> (s: Self)
        ensures
            s.hole_tables@.len() == 0,
            s.shaft_tables@.len() == 0,
    {
        ReferenceStore { hole_tables: Vec::new(), shaft_tables: Vec::new() }
    }
}

/// The fixed, ordered names of the reference tables of one family. The
/// loader reads them in this order and the resolver searches them in this
/// order, so the first table whose band holds the size answers.
pub fn family_table_names(family: &ToleranceFamily) -> (r: Vec<&'static str>)
    ensures
        r@.len() == 7,
        *family == ToleranceFamily::Hole ==> r@[0]@ == "ISO_Hole_Limits_A_C"@ && r@[1]@
            == "ISO_Hole_Limits_CD_G"@ && r@[2]@ == "ISO_Hole_Limits_H_JS"@ && r@[3]@
            == "ISO_Hole_Limits_J_P"@ && r@[4]@ == "ISO_Hole_Limits_R_S"@ && r@[5]@
            == "ISO_Hole_Limits_T_X"@ && r@[6]@ == "ISO_Hole_Limits_Z_ZC"@,
        *family == ToleranceFamily::Shaft ==> r@[0]@ == "ISO_Shaft_Limits_a_c"@ && r@[1]@
            == "ISO_Shaft_Limits_cd_g"@ && r@[2]@ == "ISO_Shaft_Limits_h_js"@ && r@[3]@
            == "ISO_Shaft_Limits_j_p"@ && r@[4]@ == "ISO_Shaft_Limits_r_s"@ && r@[5]@
            == "ISO_Shaft_Limits_t_u"@ && r@[6]@ == "ISO_Shaft_Limits_v_zc"@,
{
    match family {
        ToleranceFamily::Hole => {
            let mut v: Vec<&'static str> = Vec::new();
            v.push("ISO_Hole_Limits_A_C");
            v.push("ISO_Hole_Limits_CD_G");
            v.push("ISO_Hole_Limits_H_JS");
            v.push("ISO_Hole_Limits_J_P");
            v.push("ISO_Hole_Limits_R_S");
            v.push("ISO_Hole_Limits_T_X");
            v.push("ISO_Hole_Limits_Z_ZC");
            v
        },
        ToleranceFamily::Shaft => {
            let mut v: Vec<&'static str> = Vec::new();
            v.push("ISO_Shaft_Limits_a_c");
            v.push("ISO_Shaft_Limits_cd_g");
            v.push("ISO_Shaft_Limits_h_js");
            v.push("ISO_Shaft_Limits_j_p");
            v.push("ISO_Shaft_Limits_r_s");
            v.push("ISO_Shaft_Limits_t_u");
            v.push("ISO_Shaft_Limits_v_zc");
            v
        },
    }
}

} // verus!
