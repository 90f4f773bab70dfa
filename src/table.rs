//! The raw table: a header row of column names and rows of decimal numerals,
//! all of the header's width.
use vstd::prelude::*;
use vstd::string::*;
use crate::numeral::{check_numeral, is_numeral};

verus! {

/// Why a table or a dataset could not be formed.
#[derive(Debug, Clone, Copy, PartialEq, Eq, Structural)]
pub enum TableError {
    /// The input holds no header row.
    MissingHeader,
    /// Data row `row` (counted from 0, after the header) has `found` fields
    /// where the header has `expected`.
    Shape { row: usize, expected: usize, found: usize },
    /// The field in data row `row`, column `column`, is not a decimal
    /// numeral, or, in the target column, gives no class label.
    Format { row: usize, column: usize },
    /// The table has `columns` columns: too few to leave out `dropped`
    /// leading ones and still keep the last as the target.
    TooFewColumns { columns: usize, dropped: usize },
}

/// A row of `width` fields, each a decimal numeral.
pub open spec fn row_valid(row: Seq<String>, width: nat) -> bool {
    row.len() == width && forall|j: int| 0 <= j < row.len() ==> is_numeral(#[trigger] row[j]@)
}

/// Every row is valid for the width.
pub open spec fn rows_valid(rows: Seq<Vec<String>>, width: nat) -> bool {
    forall|i: int| 0 <= i < rows.len() ==> row_valid(#[trigger] rows[i]@, width)
}

/// Every field of the row is a decimal numeral, whatever the row's length.
pub open spec fn all_numerals(row: Seq<String>) -> bool {
    forall|j: int| 0 <= j < row.len() ==> is_numeral(#[trigger] row[j]@)
}

/// Every field of every row is a decimal numeral.
pub open spec fn all_rows_numerals(rows: Seq<Vec<String>>) -> bool {
    forall|i: int| 0 <= i < rows.len() ==> all_numerals(#[trigger] rows[i]@)
}

/// Every row has `width` fields.
pub open spec fn all_rows_width(rows: Seq<Vec<String>>, width: nat) -> bool {
    forall|i: int| 0 <= i < rows.len() ==> (#[trigger] rows[i])@.len() == width
}

/// `e` reports the first fault of the rows. Fields come first: the first
/// field, in row order, that is no numeral is a format fault, whatever the
/// rows' lengths. Only when every field is a numeral is the first row of the
/// wrong length a shape fault.
pub open spec fn is_first_fault(rows: Seq<Vec<String>>, width: nat, e: TableError) -> bool {
    match e {
        TableError::Format { row, column } => {
            &&& row < rows.len()
            &&& all_rows_numerals(rows.take(row as int))
            &&& column < rows[row as int]@.len()
            &&& !is_numeral(rows[row as int]@[column as int]@)
            &&& forall|j: int| 0 <= j < column ==> is_numeral(#[trigger] rows[row as int]@[j]@)
        },
        TableError::Shape { row, expected, found } => {
            &&& all_rows_numerals(rows)
            &&& row < rows.len()
            &&& all_rows_width(rows.take(row as int), width)
            &&& expected == width
            &&& found == rows[row as int]@.len()
            &&& found != width
        },
        _ => false,
    }
}

/// The rows are valid exactly when every field is a numeral and every row
/// has the width.
proof fn lemma_rows_valid_parts(rows: Seq<Vec<String>>, width: nat)
    ensures
        rows_valid(rows, width) <==> (all_rows_numerals(rows) && all_rows_width(rows, width)),
{
    if all_rows_numerals(rows) && all_rows_width(rows, width) {
        assert forall|i: int| 0 <= i < rows.len() implies row_valid(#[trigger] rows[i]@, width) by {
            assert(all_numerals(rows[i]@));
        }
    }
    if rows_valid(rows, width) {
        assert forall|i: int| 0 <= i < rows.len() implies all_numerals(#[trigger] rows[i]@) by {
            assert(row_valid(rows[i]@, width));
        }
        assert forall|i: int| 0 <= i < rows.len() implies (#[trigger] rows[i])@.len() == width by {
            assert(row_valid(rows[i]@, width));
        }
    }
}

/// A field that is no numeral makes the first fault a format fault: no
/// shape fault of another row can hide it.
pub proof fn lemma_non_numeral_is_format_fault(
    rows: Seq<Vec<String>>,
    width: nat,
    e: TableError,
    row: int,
    column: int,
)
    requires
        0 <= row < rows.len(),
        0 <= column < rows[row]@.len(),
        !is_numeral(rows[row]@[column]@),
        is_first_fault(rows, width, e),
    ensures
        e matches TableError::Format { .. },
{
    assert(!all_numerals(rows[row]@));
}

/// Checks that every field is a numeral and then that every row has `width`
/// fields, reporting the first fault.
pub fn validate_rows(rows: &Vec<Vec<String>>, width: usize) -> (r: Result<(), TableError>)
    ensures
        r is Ok <==> rows_valid(rows@, width as nat),
        r matches Err(e) ==> is_first_fault(rows@, width as nat, e),
{
    proof {
        lemma_rows_valid_parts(rows@, width as nat);
    }
    let mut i: usize = 0;
    while i < rows.len()
        invariant
            i <= rows@.len(),
            all_rows_numerals(rows@.take(i as int)),
        decreases rows@.len() - i,
    {
        let row = &rows[i];
        let mut j: usize = 0;
        while j < row.len()
            invariant
                i < rows@.len(),
                row == rows@[i as int],
                all_rows_numerals(rows@.take(i as int)),
                j <= row@.len(),
                forall|x: int| 0 <= x < j ==> is_numeral(#[trigger] row@[x]@),
            decreases row@.len() - j,
        {
            if !check_numeral(row[j].as_str()) {
                let e = TableError::Format { row: i, column: j };
                assert(!all_numerals(rows@[i as int]@));
                assert(!all_rows_numerals(rows@));
                return Err(e);
            }
            j = j + 1;
        }
        assert(rows@.take(i + 1) =~= rows@.take(i as int).push(rows@[i as int]));
        assert(all_numerals(rows@[i as int]@));
        i = i + 1;
    }
    assert(rows@.take(i as int) =~= rows@);
    let mut i: usize = 0;
    while i < rows.len()
        invariant
            i <= rows@.len(),
            all_rows_numerals(rows@),
            all_rows_width(rows@.take(i as int), width as nat),
        decreases rows@.len() - i,
    {
        if rows[i].len() != width {
            let e = TableError::Shape { row: i, expected: width, found: rows[i].len() };
            assert(!all_rows_width(rows@, width as nat));
            return Err(e);
        }
        assert(rows@.take(i + 1) =~= rows@.take(i as int).push(rows@[i as int]));
        i = i + 1;
    }
    assert(rows@.take(i as int) =~= rows@);
    Ok(())
}

/// A table of named columns whose rows are decimal numerals of the header's
/// width.
pub struct RawTable {
    pub headers: Vec<String>,
    pub rows: Vec<Vec<String>>,
}

impl RawTable {
    /// Every row has one numeral for each column name.
    pub open spec fn is_well_formed(&self) -> bool {
        rows_valid(self.rows@, self.headers@.len())
    }

    /// A table of the given column names and data rows, if every row is valid.
    pub fn new(headers: Vec<String>, rows: Vec<Vec<String>>) -> (r: Result<RawTable, TableError>)
        ensures
            r is Ok <==> rows_valid(rows@, headers@.len()),
            r matches Ok(t) ==> t.headers@ == headers@ && t.rows@ == rows@ && t.is_well_formed(),
            r matches Err(e) ==> is_first_fault(rows@, headers@.len(), e),
    {
        match validate_rows(&rows, headers.len()) {
            Ok(()) => Ok(RawTable { headers, rows }),
            Err(e) => Err(e),
        }
    }

    /// A table whose first record holds the column names and whose other
    /// records are its data rows, in order.
    pub fn from_records(records: Vec<Vec<String>>) -> (r: Result<RawTable, TableError>)
        ensures
            records@.len() == 0 ==> r == Err::<RawTable, TableError>(TableError::MissingHeader),
            records@.len() > 0 ==> {
                let h = records@[0]@;
                let rows = records@.drop_first();
                &&& r is Ok <==> rows_valid(rows, h.len())
                &&& r matches Ok(t) ==> t.headers@ == h && t.rows@ == rows && t.is_well_formed()
                &&& r matches Err(e) ==> is_first_fault(rows, h.len(), e)
            },
    {
        if records.len() == 0 {
            return Err(TableError::MissingHeader);
        }
        let mut rows = records;
        let headers = rows.remove(0);
        assert(rows@ =~= records@.drop_first());
        RawTable::new(headers, rows)
    }
}

} // verus!
