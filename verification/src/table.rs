//! The table: a header of column names and rows of coerced cells, parsed
//! from raw delimited text.
//!
//! The first line of the input is the header; the remaining lines are body
//! lines. An empty body line yields no row; every other body line must have
//! exactly as many fields as the header.

use crate::cell::{spec_coerce, CellModel, CellValue};
use crate::split::{lemma_split_on_len, split_on};
use vstd::prelude::*;

verus! {

/// Why a parse failed.
#[derive(Debug, PartialEq, Eq)]
pub enum CsvError {
    /// The raw input had zero length.
    EmptyInput,
    /// A body row's cell count differed from the header's column count.
    /// `row` is the 1-based index of the line within the body.
    ColumnCountMismatch { row: usize, expected: usize, actual: usize },
}

/// The header fields of raw input: the first line, split on commas.
pub open spec fn header_fields(s: Seq<char>) -> Seq<Seq<char>> {
    split_on(split_on(s, '\n')[0], ',')
}

/// The body lines of raw input: every line after the first.
pub open spec fn body_lines(s: Seq<char>) -> Seq<Seq<char>> {
    split_on(s, '\n').skip(1)
}

/// The cells of one body line: its fields, each coerced.
pub open spec fn row_cells(l: Seq<char>) -> Seq<CellModel> {
    split_on(l, ',').map_values(|t: Seq<char>| spec_coerce(t))
}

/// Whether a body line is malformed for a table of `ncols` columns:
/// nonempty, with a field count other than `ncols`.
pub open spec fn bad_line(l: Seq<char>, ncols: int) -> bool {
    l.len() > 0 && split_on(l, ',').len() != ncols
}

/// The rows of a body: one row per nonempty line, in order.
pub open spec fn table_rows(body: Seq<Seq<char>>) -> Seq<Seq<CellModel>> {
    body.filter(|l: Seq<char>| l.len() > 0).map_values(|l: Seq<char>| row_cells(l))
}

/// Whether parsing `s` succeeds: nonempty input and no malformed body line.
pub open spec fn parse_ok(s: Seq<char>) -> bool {
    &&& s.len() > 0
    &&& forall|j: int|
        0 <= j < body_lines(s).len() ==> !bad_line(
            #[trigger] body_lines(s)[j],
            header_fields(s).len() as int,
        )
}

/// Which error parsing `s` yields: the empty-input error exactly on empty
/// input, otherwise the mismatch error for the first malformed body line,
/// carrying its 1-based index and the expected and actual field counts.
pub open spec fn parse_err(s: Seq<char>, e: CsvError) -> bool {
    match e {
        CsvError::EmptyInput => s.len() == 0,
        CsvError::ColumnCountMismatch { row, expected, actual } => {
            let body = body_lines(s);
            let ncols = header_fields(s).len() as int;
            &&& s.len() > 0
            &&& 1 <= row <= body.len()
            &&& bad_line(body[row - 1], ncols)
            &&& forall|j: int| 0 <= j < row - 1 ==> !bad_line(#[trigger] body[j], ncols)
            &&& expected == ncols
            &&& actual == split_on(body[row - 1], ',').len()
        },
    }
}

/// A parsed table: the header's column names and the coerced rows.
#[derive(Debug, PartialEq, Eq)]
pub struct Csv {
    pub header: Vec<String>,
    pub content: Vec<Vec<CellValue>>,
}

/// Appending one line extends the rows by one row exactly when the line is
/// nonempty.
proof fn lemma_table_rows_snoc(b: Seq<Seq<char>>, l: Seq<char>)
    ensures
        table_rows(b.push(l)) == if l.len() > 0 {
            table_rows(b).push(row_cells(l))
        } else {
            table_rows(b)
        },
{
    reveal(Seq::filter);
    let pred = |x: Seq<char>| x.len() > 0;
    assert(b.push(l).drop_last() =~= b);
    assert(b.push(l).last() == l);
    if l.len() > 0 {
        assert(b.push(l).filter(pred) =~= b.filter(pred).push(l));
        assert(table_rows(b.push(l)) =~= table_rows(b).push(row_cells(l)));
    } else {
        assert(b.push(l).filter(pred) =~= b.filter(pred));
        assert(table_rows(b.push(l)) =~= table_rows(b));
    }
}

/// In a body with no malformed line, every row has `ncols` cells.
proof fn lemma_table_rows_wf(b: Seq<Seq<char>>, ncols: int)
    requires
        forall|j: int| 0 <= j < b.len() ==> !bad_line(#[trigger] b[j], ncols),
    ensures
        forall|i: int| 0 <= i < table_rows(b).len() ==> (#[trigger] table_rows(b)[i]).len()
            == ncols,
    decreases b.len(),
{
    reveal(Seq::filter);
    if b.len() == 0 {
        assert(b.filter(|l: Seq<char>| l.len() > 0) =~= Seq::<Seq<char>>::empty());
    } else {
        let b0 = b.drop_last();
        let l = b.last();
        assert(forall|j: int| 0 <= j < b0.len() ==> !bad_line(#[trigger] b0[j], ncols));
        lemma_table_rows_wf(b0, ncols);
        assert(b0.push(l) =~= b);
        lemma_table_rows_snoc(b0, l);
        if l.len() > 0 {
            assert(row_cells(l).len() == ncols);
        }
    }
}

/// Coerces every field of one line into cells, in order.
fn coerce_row(fields: &Vec<Vec<char>>) -> (row: Vec<CellValue>)
    ensures
        row.deep_view() == fields.deep_view().map_values(|t: Seq<char>| spec_coerce(t)),
{
    let mut row: Vec<CellValue> = Vec::new();
    let mut k: usize = 0;
    while k < fields.len()
        invariant
            k <= fields@.len(),
            row.deep_view() == fields.deep_view().take(k as int).map_values(
                |t: Seq<char>| spec_coerce(t),
            ),
        decreases fields@.len() - k,
    {
        let ghost prev = row.deep_view();
        let cell = crate::cell::coerce_chars(fields[k].as_slice());
        row.push(cell);
        proof {
            assert(fields.deep_view()[k as int] =~= fields@[k as int]@);
            assert(row.deep_view() =~= prev.push(spec_coerce(fields.deep_view()[k as int])));
            assert(row.deep_view() =~= fields.deep_view().take(k + 1).map_values(
                |t: Seq<char>| spec_coerce(t),
            ));
        }
        k += 1;
    }
    proof {
        assert(fields.deep_view().take(fields@.len() as int) =~= fields.deep_view());
    }
    row
}

impl Csv {
    /// Whether every row has exactly as many cells as the header has columns.
    pub open spec fn wf(self) -> bool {
        forall|i: int|
            0 <= i < self.content.deep_view().len() ==> (#[trigger] self.content.deep_view()[
                i
            ]).len() == self.header@.len()
    }

    /// An empty table.
    pub fn new() -> (r: Csv)
        ensures
            r.header@.len() == 0,
            r.content@.len() == 0,
            r.wf(),
    {
        Csv { header: Vec::new(), content: Vec::new() }
    }

    /// Parses raw text into a table: the first line becomes the header, and
    /// each nonempty later line becomes a row of coerced cells. Fails on
    /// empty input, and on the first body line whose field count differs
    /// from the header's.
    pub fn parse(s: &str) -> (r: Result<Csv, CsvError>)
        ensures
            r is Ok <==> parse_ok(s@),
            r matches Ok(t) ==> {
                &&& t.header.deep_view() == header_fields(s@)
                &&& t.content.deep_view() == table_rows(body_lines(s@))
                &&& t.wf()
            },
            r matches Err(e) ==> parse_err(s@, e),
    {
        if s.is_empty() {
            return Err(CsvError::EmptyInput);
        }
        let cs = crate::split::chars_vec(s);
        let lines = crate::split::split_char(cs.as_slice(), '\n');
        proof {
            lemma_split_on_len(s@, '\n');
            assert(lines@.len() == lines.deep_view().len());
        }
        let header = crate::split::split_to_strings(lines[0].as_slice(), ',');
        proof {
            assert(lines.deep_view()[0] =~= lines@[0]@);
            assert(header.deep_view() == header_fields(s@));
        }
        let ncols = header.len();
        let mut content: Vec<Vec<CellValue>> = Vec::new();
        let mut i: usize = 1;
        proof {
            reveal(Seq::filter);
            assert(body_lines(s@).take(0) =~= Seq::<Seq<char>>::empty());
            assert(content.deep_view() =~= table_rows(body_lines(s@).take(0)));
        }
        while i < lines.len()
            invariant
                1 <= i <= lines@.len(),
                lines.deep_view() == split_on(s@, '\n'),
                header.deep_view() == header_fields(s@),
                ncols == header@.len(),
                content.deep_view() == table_rows(body_lines(s@).take(i - 1)),
                forall|j: int|
                    0 <= j < i - 1 ==> !bad_line(#[trigger] body_lines(s@)[j], ncols as int),
            decreases lines@.len() - i,
        {
            let ghost body = body_lines(s@);
            let ghost prevrows = content.deep_view();
            proof {
                assert(lines.deep_view()[i as int] == body[i - 1]);
                assert(lines.deep_view()[i as int] =~= lines@[i as int]@);
                assert(body.take(i as int) =~= body.take(i - 1).push(body[i - 1]));
                lemma_table_rows_snoc(body.take(i - 1), body[i - 1]);
            }
            let line = &lines[i];
            if line.len() > 0 {
                let fields = crate::split::split_char(line.as_slice(), ',');
                let nf = fields.len();
                proof {
                    assert(fields.deep_view() == split_on(body[i - 1], ','));
                    assert(fields@.len() == fields.deep_view().len());
                }
                if nf != ncols {
                    return Err(
                        CsvError::ColumnCountMismatch { row: i, expected: ncols, actual: nf },
                    );
                }
                let row = coerce_row(&fields);
                content.push(row);
                proof {
                    assert(row.deep_view() =~= row_cells(body[i - 1]));
                    assert(content.deep_view() =~= prevrows.push(row_cells(body[i - 1])));
                }
            } else {
                proof {
                    assert(!bad_line(body[i - 1], ncols as int));
                }
            }
            i += 1;
        }
        proof {
            let body = body_lines(s@);
            assert(body.take(i - 1) =~= body);
            assert(parse_ok(s@));
            lemma_table_rows_wf(body, ncols as int);
        }
        let t = Csv { header, content };
        proof {
            assert(t.wf());
        }
        Ok(t)
    }

    /// Replaces this table with the parse of `s`; on failure the table is
    /// left as it was and the error says why, as in `parse`.
    pub fn read_from_str(&mut self, s: &str) -> (r: Result<(), CsvError>)
        ensures
            r is Ok <==> parse_ok(s@),
            r is Ok ==> {
                &&& final(self).header.deep_view() == header_fields(s@)
                &&& final(self).content.deep_view() == table_rows(body_lines(s@))
                &&& final(self).wf()
            },
            r matches Err(e) ==> parse_err(s@, e) && *final(self) == *old(self),
    {
        match Csv::parse(s) {
            Ok(t) => {
                *self = t;
                Ok(())
            },
            Err(e) => Err(e),
        }
    }
}

} // verus!
