//! Class labels as records of one field each, and back: the form in which
//! label vectors are written out and read in again.
use vstd::prelude::*;
use crate::numeral::{decimal, format_decimal, is_numeral, label_of, lemma_decimal_label, numeral_label};
use crate::table::{row_valid, rows_valid, RawTable, TableError};

verus! {

/// `records` holds one record per label, in order, whose single field is the
/// label's decimal text.
pub open spec fn is_label_records(labels: Seq<usize>, records: Seq<Vec<String>>) -> bool {
    &&& records.len() == labels.len()
    &&& forall|i: int|
        0 <= i < records.len() ==> (#[trigger] records[i])@.len() == 1 && records[i]@[0]@
            == decimal(labels[i] as nat)
}

/// One record per label, in order, each holding the label's decimal text.
pub fn label_records(labels: &Vec<usize>) -> (r: Vec<Vec<String>>)
    ensures
        is_label_records(labels@, r@),
{
    let mut r: Vec<Vec<String>> = Vec::new();
    let mut i: usize = 0;
    while i < labels.len()
        invariant
            i <= labels@.len(),
            r@.len() == i,
            forall|x: int|
                0 <= x < i ==> (#[trigger] r@[x])@.len() == 1 && r@[x]@[0]@ == decimal(
                    labels@[x] as nat,
                ),
        decreases labels@.len() - i,
    {
        let mut record: Vec<String> = Vec::new();
        record.push(format_decimal(labels[i]));
        r.push(record);
        i = i + 1;
    }
    r
}

/// Every row's field in `column` has a class label.
pub open spec fn has_labels(rows: Seq<Vec<String>>, column: int) -> bool {
    forall|i: int| 0 <= i < rows.len() ==> label_of((#[trigger] rows[i])@[column]@) is Some
}

/// `e` reports the first row, in order, whose field in `column` has no class
/// label, as a format fault at that row and column.
pub open spec fn is_first_label_fault(rows: Seq<Vec<String>>, column: int, e: TableError) -> bool {
    match e {
        TableError::Format { row, column: c } => {
            &&& c == column
            &&& row < rows.len()
            &&& label_of(rows[row as int]@[column]@) is None
            &&& has_labels(rows.take(row as int), column)
        },
        _ => false,
    }
}

impl RawTable {
    /// The class label of every row, read from column `column`; the first
    /// row whose field has none is reported as a format fault.
    pub fn column_labels(&self, column: usize) -> (r: Result<Vec<usize>, TableError>)
        requires
            self.is_well_formed(),
            column < self.headers@.len(),
        ensures
            r is Ok <==> has_labels(self.rows@, column as int),
            r matches Ok(v) ==> v@.len() == self.rows@.len() && forall|i: int|
                0 <= i < v@.len() ==> label_of(self.rows@[i]@[column as int]@) == Some(
                    #[trigger] v@[i] as nat,
                ),
            r matches Err(e) ==> is_first_label_fault(self.rows@, column as int, e),
    {
        let mut r: Vec<usize> = Vec::new();
        let mut i: usize = 0;
        while i < self.rows.len()
            invariant
                self.is_well_formed(),
                column < self.headers@.len(),
                i <= self.rows@.len(),
                r@.len() == i,
                has_labels(self.rows@.take(i as int), column as int),
                forall|x: int|
                    0 <= x < i ==> label_of(self.rows@[x]@[column as int]@) == Some(
                        #[trigger] r@[x] as nat,
                    ),
            decreases self.rows@.len() - i,
        {
            assert(row_valid(self.rows@[i as int]@, self.headers@.len()));
            assert(is_numeral(self.rows@[i as int]@[column as int]@));
            match numeral_label(self.rows[i][column].as_str()) {
                Some(v) => {
                    r.push(v);
                },
                None => {
                    let e = TableError::Format { row: i, column };
                    assert(!has_labels(self.rows@, column as int));
                    return Err(e);
                },
            }
            assert(self.rows@.take(i + 1) =~= self.rows@.take(i as int).push(self.rows@[i as int]));
            i = i + 1;
        }
        assert(self.rows@.take(i as int) =~= self.rows@);
        Ok(r)
    }
}

/// Labels written as records and read back as a one-column table come back
/// unchanged: every record is a valid row of width one, and its label is the
/// label that was written.
pub proof fn lemma_labels_round_trip(labels: Seq<usize>, records: Seq<Vec<String>>)
    requires
        is_label_records(labels, records),
    ensures
        rows_valid(records, 1),
        forall|i: int|
            0 <= i < records.len() ==> label_of((#[trigger] records[i])@[0]@) == Some(
                labels[i] as nat,
            ),
{
    assert forall|i: int| 0 <= i < records.len() implies row_valid(#[trigger] records[i]@, 1)
        && label_of(records[i]@[0]@) == Some(labels[i] as nat) by {
        lemma_decimal_label(labels[i] as nat);
    }
}

} // verus!
