//! The labelled dataset: numeric feature rows, integer class labels and the
//! feature names, built from a raw table and split into train and test parts.
use vstd::prelude::*;
use crate::labels::{has_labels, is_first_label_fault};
use crate::numeral::{is_numeral, label_of};
use crate::table::{is_first_fault, rows_valid, validate_rows, RawTable, TableError};

verus! {

/// Feature rows, one class label per row, and the name of each feature
/// column. Row `i` of `features` and entry `i` of `labels` describe the same
/// record.
pub struct Dataset {
    pub features: Vec<Vec<String>>,
    pub labels: Vec<usize>,
    pub feature_names: Vec<String>,
}

impl Dataset {
    /// One label per row, one numeral per feature name in every row.
    pub open spec fn is_well_formed(&self) -> bool {
        &&& self.labels@.len() == self.features@.len()
        &&& rows_valid(self.features@, self.feature_names@.len())
    }

    /// The number of records.
    pub open spec fn num_rows_spec(&self) -> nat {
        self.features@.len()
    }

    /// The number of records.
    pub fn num_rows(&self) -> (r: usize)
        ensures
            r == self.num_rows_spec(),
    {
        self.features.len()
    }

    /// The number of feature columns.
    pub fn num_features(&self) -> (r: usize)
        ensures
            r == self.feature_names@.len(),
    {
        self.feature_names.len()
    }
}

/// The columns `[from, to)` of a row, copied.
fn copy_columns(row: &Vec<String>, from: usize, to: usize) -> (r: Vec<String>)
    requires
        from <= to <= row@.len(),
    ensures
        r@ == row@.subrange(from as int, to as int),
{
    let mut r: Vec<String> = Vec::new();
    let mut j: usize = from;
    while j < to
        invariant
            from <= j <= to <= row@.len(),
            r@ == row@.subrange(from as int, j as int),
        decreases to - j,
    {
        r.push(row[j].clone());
        assert(r@ =~= row@.subrange(from as int, j + 1));
        j = j + 1;
    }
    r
}

/// The dataset that `build` makes of a valid table: per row, the columns
/// `[dropped, H - 1)` as features and the last column's label as target,
/// with the names of those feature columns.
pub open spec fn is_built_from(d: Dataset, table: RawTable, dropped: nat) -> bool {
    let h = table.headers@.len();
    let n = table.rows@.len();
    &&& d.features@.len() == n
    &&& d.labels@.len() == n
    &&& d.feature_names@ == table.headers@.subrange(dropped as int, h - 1)
    &&& forall|i: int|
        0 <= i < n ==> (#[trigger] d.features@[i])@ == table.rows@[i]@.subrange(
            dropped as int,
            h - 1,
        )
    &&& forall|i: int|
        0 <= i < n ==> label_of(table.rows@[i]@[h - 1]@) == Some(#[trigger] d.labels@[i] as nat)
}

/// Builds the dataset of a table, leaving out its first `drop_leading`
/// columns and taking the last column as the class label. A table that is
/// not well formed gives its first fault; a target with no class label
/// (negative after truncation toward zero, or beyond `usize::MAX`) gives a
/// format fault at its row and the last column.
pub fn build(table: &RawTable, drop_leading: usize) -> (r: Result<Dataset, TableError>)
    ensures
        drop_leading >= table.headers@.len() ==> r == Err::<Dataset, TableError>(
            TableError::TooFewColumns { columns: table.headers@.len() as usize, dropped: drop_leading },
        ),
        drop_leading < table.headers@.len() ==> {
            &&& r is Ok <==> (table.is_well_formed() && has_labels(
                table.rows@,
                table.headers@.len() - 1,
            ))
            &&& !table.is_well_formed() ==> (r matches Err(e) && is_first_fault(
                table.rows@,
                table.headers@.len(),
                e,
            ))
            &&& table.is_well_formed() ==> (r matches Err(e) ==> is_first_label_fault(
                table.rows@,
                table.headers@.len() - 1,
                e,
            ))
        },
        r matches Ok(d) ==> d.is_well_formed() && is_built_from(d, *table, drop_leading as nat),
        r matches Ok(d) ==> {
            &&& d.num_rows_spec() == table.rows@.len()
            &&& d.feature_names@.len() == table.headers@.len() - drop_leading - 1
            &&& forall|i: int|
                0 <= i < d.features@.len() ==> (#[trigger] d.features@[i])@.len()
                    == table.headers@.len() - drop_leading - 1
        },
{
    let h = table.headers.len();
    if drop_leading >= h {
        return Err(TableError::TooFewColumns { columns: h, dropped: drop_leading });
    }
    match validate_rows(&table.rows, h) {
        Err(e) => {
            return Err(e);
        },
        Ok(()) => {},
    }
    let target = h - 1;
    let labels = match table.column_labels(target) {
        Ok(v) => v,
        Err(e) => {
            return Err(e);
        },
    };
    let feature_names = copy_columns(&table.headers, drop_leading, target);
    let mut features: Vec<Vec<String>> = Vec::new();
    let n = table.rows.len();
    let mut i: usize = 0;
    while i < n
        invariant
            n == table.rows@.len(),
            h == table.headers@.len(),
            drop_leading <= target,
            target == h - 1,
            table.is_well_formed(),
            i <= n,
            features@.len() == i,
            labels@.len() == n,
            forall|x: int|
                0 <= x < i ==> (#[trigger] features@[x])@ == table.rows@[x]@.subrange(
                    drop_leading as int,
                    target as int,
                ),
            forall|x: int|
                0 <= x < n ==> label_of(table.rows@[x]@[target as int]@) == Some(
                    #[trigger] labels@[x] as nat,
                ),
        decreases n - i,
    {
        let row = &table.rows[i];
        assert(crate::table::row_valid(table.rows@[i as int]@, h as nat));
        features.push(copy_columns(row, drop_leading, target));
        i = i + 1;
    }
    let d = Dataset { features, labels, feature_names };
    assert forall|x: int| 0 <= x < d.features@.len() implies (#[trigger] d.features@[x])@.len()
        == h - drop_leading - 1 by {
        assert(d.features@[x]@ == table.rows@[x]@.subrange(drop_leading as int, target as int));
    }
    assert forall|x: int| 0 <= x < d.features@.len() implies crate::table::row_valid(
        #[trigger] d.features@[x]@,
        d.feature_names@.len(),
    ) by {
        assert(crate::table::row_valid(table.rows@[x]@, h as nat));
        assert forall|j: int| 0 <= j < d.features@[x]@.len() implies is_numeral(
            #[trigger] d.features@[x]@[j]@,
        ) by {
            assert(d.features@[x]@[j] == table.rows@[x]@[j + drop_leading]);
        }
    }
    Ok(d)
}

/// The number of records that go to the train part when `n` records are
/// split at the ratio `numerator / denominator`: the ratio's share of `n`,
/// rounded down.
pub open spec fn train_size(n: nat, numerator: nat, denominator: nat) -> nat {
    (n * numerator) / denominator
}

/// Why a dataset cannot be split at a ratio.
#[derive(Debug, Clone, Copy, PartialEq, Eq, Structural)]
pub enum SplitError {
    /// The ratio `numerator / denominator` is not strictly between 0 and 1.
    RatioOutOfRange { numerator: usize, denominator: usize },
    /// Of `rows` records, `train` would go to the train part, which leaves
    /// one of the two parts empty.
    EmptyPart { rows: usize, train: usize },
}

/// The rows of a matrix, each as its sequence of fields.
pub open spec fn rows_view(rows: Seq<Vec<String>>) -> Seq<Seq<String>> {
    rows.map_values(|r: Vec<String>| r@)
}

/// `train` and `test` are the parts of `d` split after its first `k` records:
/// the train part holds records `0 .. k`, the test part records `k .. n`, in
/// order, both with the feature names of `d`.
pub open spec fn is_split_at(d: Dataset, k: nat, train: Dataset, test: Dataset) -> bool {
    &&& k <= d.features@.len()
    &&& rows_view(train.features@) == rows_view(d.features@).take(k as int)
    &&& train.labels@ == d.labels@.take(k as int)
    &&& rows_view(test.features@) == rows_view(d.features@).skip(k as int)
    &&& test.labels@ == d.labels@.skip(k as int)
    &&& train.feature_names@ == d.feature_names@
    &&& test.feature_names@ == d.feature_names@
}

/// The records `[from, to)` of a dataset.
fn slice_rows(d: &Dataset, from: usize, to: usize) -> (r: Dataset)
    requires
        d.is_well_formed(),
        from <= to <= d.features@.len(),
    ensures
        rows_view(r.features@) == rows_view(d.features@).subrange(from as int, to as int),
        r.labels@ == d.labels@.subrange(from as int, to as int),
        r.feature_names@ == d.feature_names@,
{
    let mut features: Vec<Vec<String>> = Vec::new();
    let mut labels: Vec<usize> = Vec::new();
    let mut i: usize = from;
    while i < to
        invariant
            d.is_well_formed(),
            from <= i <= to <= d.features@.len(),
            rows_view(features@) == rows_view(d.features@).subrange(from as int, i as int),
            labels@ == d.labels@.subrange(from as int, i as int),
        decreases to - i,
    {
        let row = copy_columns(&d.features[i], 0, d.features[i].len());
        assert(row@ =~= d.features@[i as int]@);
        let ghost before = features@;
        features.push(row);
        labels.push(d.labels[i]);
        assert(rows_view(features@) =~= rows_view(d.features@).subrange(from as int, i + 1)) by {
            assert(rows_view(features@) =~= rows_view(before).push(row@));
        }
        assert(labels@ =~= d.labels@.subrange(from as int, i + 1));
        i = i + 1;
    }
    let feature_names = copy_columns(&d.feature_names, 0, d.feature_names.len());
    assert(feature_names@ =~= d.feature_names@);
    Dataset { features, labels, feature_names }
}

impl Dataset {
    /// Splits the records at the ratio `numerator / denominator`: the first
    /// `floor(n * numerator / denominator)` records, in order, form the train
    /// part and the rest the test part.
    pub fn split(&self, numerator: usize, denominator: usize) -> (r: Result<
        (Dataset, Dataset),
        SplitError,
    >)
        requires
            self.is_well_formed(),
        ensures
            (numerator == 0 || numerator >= denominator) ==> r == Err::<(Dataset, Dataset), SplitError>(
                SplitError::RatioOutOfRange { numerator, denominator },
            ),
            0 < numerator < denominator ==> {
                let n = self.features@.len();
                let k = train_size(n, numerator as nat, denominator as nat);
                &&& (k == 0 || k == n) ==> r == Err::<(Dataset, Dataset), SplitError>(
                    SplitError::EmptyPart { rows: n as usize, train: k as usize },
                )
                &&& (0 < k < n) ==> (r matches Ok((train, test)) && is_split_at(
                    *self,
                    k,
                    train,
                    test,
                ) && train.is_well_formed() && test.is_well_formed())
            },
    {
        if numerator == 0 || numerator >= denominator {
            return Err(SplitError::RatioOutOfRange { numerator, denominator });
        }
        let n = self.features.len();
        assert((n as int) * (numerator as int) <= u128::MAX) by (nonlinear_arith)
            requires
                n <= usize::MAX,
                numerator <= usize::MAX,
                usize::MAX < 0x1_0000_0000_0000_0000,
        ;
        let wide: u128 = (n as u128) * (numerator as u128) / (denominator as u128);
        assert(wide <= n) by (nonlinear_arith)
            requires
                wide == (n as int) * (numerator as int) / (denominator as int),
                0 < numerator < denominator,
        ;
        let k = wide as usize;
        if k == 0 || k == n {
            return Err(SplitError::EmptyPart { rows: n, train: k });
        }
        let train = slice_rows(self, 0, k);
        let test = slice_rows(self, k, n);
        assert(rows_view(train.features@) =~= rows_view(self.features@).take(k as int));
        assert(train.labels@ =~= self.labels@.take(k as int));
        assert(rows_view(test.features@) =~= rows_view(self.features@).skip(k as int));
        assert(test.labels@ =~= self.labels@.skip(k as int));
        assert(rows_view(train.features@).len() == train.features@.len());
        assert(rows_view(test.features@).len() == test.features@.len());
        assert(rows_view(self.features@).len() == n);
        assert(train.is_well_formed()) by {
            assert forall|i: int| 0 <= i < train.features@.len() implies crate::table::row_valid(
                #[trigger] train.features@[i]@,
                train.feature_names@.len(),
            ) by {
                assert(rows_view(train.features@).len() == train.features@.len());
                assert(rows_view(train.features@)[i] == train.features@[i]@);
                assert(rows_view(self.features@).take(k as int)[i] == self.features@[i]@);
                assert(crate::table::row_valid(self.features@[i]@, self.feature_names@.len()));
            }
        }
        assert(test.is_well_formed()) by {
            assert forall|i: int| 0 <= i < test.features@.len() implies crate::table::row_valid(
                #[trigger] test.features@[i]@,
                test.feature_names@.len(),
            ) by {
                assert(rows_view(test.features@).len() == test.features@.len());
                assert(rows_view(test.features@)[i] == test.features@[i]@);
                assert(rows_view(self.features@).skip(k as int)[i] == self.features@[i + k]@);
                assert(crate::table::row_valid(self.features@[i + k]@, self.feature_names@.len()));
            }
        }
        Ok((train, test))
    }
}

/// A split is exhaustive and disjoint: the train records followed by the test
/// records are exactly the records of the whole dataset, each once, in order.
pub proof fn lemma_split_partitions(d: Dataset, k: nat, train: Dataset, test: Dataset)
    requires
        d.is_well_formed(),
        is_split_at(d, k, train, test),
    ensures
        rows_view(train.features@) + rows_view(test.features@) == rows_view(d.features@),
        train.labels@ + test.labels@ == d.labels@,
        train.features@.len() + test.features@.len() == d.features@.len(),
{
    assert(rows_view(train.features@) + rows_view(test.features@) =~= rows_view(d.features@));
    assert(train.labels@ + test.labels@ =~= d.labels@);
}

} // verus!
