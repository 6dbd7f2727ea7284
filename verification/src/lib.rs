//! A verified loader for small comma-separated tables: parse raw text into
//! a header and typed rows, then project the table down to a kept subset of
//! columns while preserving the original column order.
//!
//! The first line of the input is the header. Every later nonempty line is
//! a row whose fields are coerced to cells — an unsigned integer if the
//! field is decimal digits within 32 bits, else a float if it is in the
//! floating-point grammar, else text. Reading the file itself is left to
//! the caller; the library works on the raw text.

use vstd::prelude::*;

pub mod cell;
pub mod config;
pub mod project;
pub mod split;
pub mod table;

verus! {

use crate::project::project_seq;
use crate::table::{body_lines, header_fields, parse_err, parse_ok, table_rows, Csv, CsvError};

/// Parses raw text and narrows the result to the columns named in
/// `columns`: the whole pipeline except reading the storage. Fails exactly
/// as `Csv::parse` does; on success the table is the parse of `content`
/// projected by `columns`.
pub fn from_csv_str(content: &str, columns: &[String]) -> (r: Result<Csv, CsvError>)
    ensures
        r is Ok <==> parse_ok(content@),
        r matches Ok(t) ==> {
            let hdr = header_fields(content@);
            let keep = columns.deep_view();
            let rows = table_rows(body_lines(content@));
            &&& t.header.deep_view() == project_seq(hdr, hdr, keep)
            &&& t.content.deep_view().len() == rows.len()
            &&& forall|j: int|
                0 <= j < rows.len() ==> #[trigger] t.content.deep_view()[j] == project_seq(
                    rows[j],
                    hdr,
                    keep,
                )
            &&& t.wf()
        },
        r matches Err(e) ==> parse_err(content@, e),
{
    match Csv::parse(content) {
        Ok(t) => {
            let mut t = t;
            t.filter_csv(columns);
            Ok(t)
        },
        Err(e) => Err(e),
    }
}

} // verus!
