use house_tree::dataset::{build, Dataset, SplitError};
use house_tree::shuffle::DEFAULT_SEED;
use house_tree::table::RawTable;

fn dataset(n: usize) -> Dataset {
    let mut recs = vec![vec!["x".to_string(), "y".to_string()]];
    for i in 0..n {
        recs.push(vec![i.to_string(), (i % 2).to_string()]);
    }
    build(&RawTable::from_records(recs).unwrap(), 0).unwrap()
}

fn first_column(d: &Dataset) -> Vec<usize> {
    d.features.iter().map(|r| r[0].parse::<usize>().unwrap()).collect()
}

#[test]
fn shuffle_is_a_permutation_that_keeps_rows_with_their_labels() {
    let d = dataset(10);
    let s = d.shuffled(DEFAULT_SEED);
    let ids = first_column(&s);
    let mut sorted = ids.clone();
    sorted.sort();
    assert_eq!(sorted, (0..10).collect::<Vec<usize>>());
    for (row, label) in ids.iter().zip(s.labels.iter()) {
        assert_eq!(row % 2, *label);
    }
    assert_eq!(s.feature_names, d.feature_names);
}

#[test]
fn shuffle_is_reproducible_and_mixes() {
    let d = dataset(10);
    assert_eq!(first_column(&d.shuffled(DEFAULT_SEED)), first_column(&d.shuffled(DEFAULT_SEED)));
    assert_ne!(first_column(&d.shuffled(DEFAULT_SEED)), (0..10).collect::<Vec<usize>>());
    assert_ne!(first_column(&d.shuffled(DEFAULT_SEED)), first_column(&d.shuffled(7)));
}

#[test]
fn shuffle_of_one_or_no_record() {
    assert_eq!(first_column(&dataset(1).shuffled(3)), vec![0]);
    assert!(dataset(0).shuffled(3).features.is_empty());
}

#[test]
fn shuffled_split_of_ten_rows_is_exhaustive_and_disjoint() {
    let d = dataset(10);
    let (train, test) = d.split_shuffled(8, 10, DEFAULT_SEED).unwrap();
    assert_eq!(train.features.len(), 8);
    assert_eq!(test.features.len(), 2);
    let mut ids = first_column(&train);
    ids.extend(first_column(&test));
    assert_eq!(ids, first_column(&d.shuffled(DEFAULT_SEED)));
    ids.sort();
    assert_eq!(ids, (0..10).collect::<Vec<usize>>());
}

#[test]
fn shuffled_split_reports_bad_ratios() {
    let d = dataset(10);
    assert!(matches!(d.split_shuffled(5, 5, 1), Err(SplitError::RatioOutOfRange { numerator: 5, denominator: 5 })));
    assert!(matches!(d.split_shuffled(1, 11, 1), Err(SplitError::EmptyPart { rows: 10, train: 0 })));
}
