use house_tree::dataset::{build, Dataset, SplitError};
use house_tree::graph::{DecisionTree, GraphError, TreeNode};
use house_tree::labels::label_records;
use house_tree::numeral::{check_numeral, format_decimal, numeral_label};
use house_tree::ranking::{rank, truncate_at_first_zero, LengthMismatch, RankedFeature};
use house_tree::table::{RawTable, TableError};

fn strings(fields: &[&str]) -> Vec<String> {
    fields.iter().map(|f| f.to_string()).collect()
}

fn records(rows: &[&[&str]]) -> Vec<Vec<String>> {
    rows.iter().map(|r| strings(r)).collect()
}

fn names_and_scores(ranked: &[RankedFeature]) -> Vec<(String, u64)> {
    ranked.iter().map(|e| (e.name.clone(), e.score)).collect()
}

#[test]
fn numerals_are_recognised() {
    for text in [
        "0", "12", "12.5", "-3", "+4.25", ".5", "7.", "-.5", "0042", "1e3", "2.5E-4", "-1.5e+2", "7.e1",
    ] {
        assert!(check_numeral(text), "{text}");
    }
    for text in [
        "", "+", "-", ".", "abc", "1.2.3", "1,5", " 1", "--1", "1-", "1e", "e5", "1e+", "1e3.5", "1e3e4",
        ".e1", "inf", "NaN",
    ] {
        assert!(!check_numeral(text), "{text}");
    }
}

#[test]
fn labels_truncate_toward_zero() {
    assert_eq!(numeral_label("12.9"), Some(12));
    assert_eq!(numeral_label("7"), Some(7));
    assert_eq!(numeral_label("+3.99"), Some(3));
    assert_eq!(numeral_label(".75"), Some(0));
    assert_eq!(numeral_label(&usize::MAX.to_string()), Some(usize::MAX));
    assert_eq!(numeral_label("-0"), Some(0));
    assert_eq!(numeral_label("-0.0"), Some(0));
    assert_eq!(numeral_label("-0.5"), Some(0));
    assert_eq!(numeral_label("-1e-5"), Some(0));
}

#[test]
fn labels_of_numerals_with_exponents() {
    assert_eq!(numeral_label("1.5e1"), Some(15));
    assert_eq!(numeral_label("1e3"), Some(1000));
    assert_eq!(numeral_label("123e-2"), Some(1));
    assert_eq!(numeral_label("2.5E-4"), Some(0));
    assert_eq!(numeral_label("1e19"), Some(10_000_000_000_000_000_000));
    assert_eq!(numeral_label("0.0001e4"), Some(1));
    assert_eq!(numeral_label("0e999999999999999999999999"), Some(0));
    assert_eq!(numeral_label("1e-99999999999999999999999"), Some(0));
    assert_eq!(numeral_label("1234567890123456789012345e-20"), Some(12345));
    assert_eq!(numeral_label("1e20"), None);
    assert_eq!(numeral_label("5e99999999999999999999999"), None);
}

#[test]
fn negative_or_oversized_numerals_have_no_label() {
    assert_eq!(numeral_label("-3.2"), None);
    assert_eq!(numeral_label("99999999999999999999999999"), None);
    assert_eq!(numeral_label("18446744073709551616"), None);
}

#[test]
fn decimal_text_of_numbers() {
    assert_eq!(format_decimal(0), "0");
    assert_eq!(format_decimal(7), "7");
    assert_eq!(format_decimal(1234), "1234");
    assert_eq!(format_decimal(usize::MAX), usize::MAX.to_string());
}

#[test]
fn table_from_records_keeps_header_and_rows() {
    let t = RawTable::from_records(records(&[&["id", "a", "y"], &["1", "2.5", "0"], &["2", "3", "1"]]))
        .unwrap();
    assert_eq!(t.headers, strings(&["id", "a", "y"]));
    assert_eq!(t.rows, records(&[&["1", "2.5", "0"], &["2", "3", "1"]]));
}

#[test]
fn table_without_header_is_refused() {
    assert!(matches!(RawTable::from_records(vec![]), Err(TableError::MissingHeader)));
}

#[test]
fn short_row_is_a_shape_error() {
    let r = RawTable::from_records(records(&[&["a", "b"], &["1", "2"], &["3"], &["4", "5"]]));
    assert!(matches!(r, Err(TableError::Shape { row: 1, expected: 2, found: 1 })));
}

#[test]
fn non_numeric_field_wins_over_an_earlier_short_row() {
    let r = RawTable::from_records(records(&[&["a", "b"], &["1"], &["2", "x"]]));
    assert!(matches!(r, Err(TableError::Format { row: 1, column: 1 })));
}

#[test]
fn negative_zero_target_is_label_zero() {
    let t = RawTable::from_records(records(&[&["a", "y"], &["1", "-0"], &["2", "-0.5"], &["3", "2e0"]]))
        .unwrap();
    assert_eq!(build(&t, 0).unwrap().labels, vec![0, 0, 2]);
}

#[test]
fn exponent_fields_are_read() {
    let t = RawTable::from_records(records(&[&["a", "y"], &["1e3", "1"], &["2.5E-4", "0"]])).unwrap();
    let d = build(&t, 0).unwrap();
    assert_eq!(d.features, records(&[&["1e3"], &["2.5E-4"]]));
}

#[test]
fn negative_target_is_a_format_error() {
    let t = RawTable::from_records(records(&[&["id", "a", "y"], &["1", "2", "1"], &["2", "3", "-1"]]))
        .unwrap();
    assert!(matches!(build(&t, 1), Err(TableError::Format { row: 1, column: 2 })));
}

#[test]
fn oversized_target_is_a_format_error() {
    let t = RawTable::from_records(records(&[&["a", "y"], &["1", "1e20"]])).unwrap();
    assert!(matches!(build(&t, 0), Err(TableError::Format { row: 0, column: 1 })));
    let t = RawTable::from_records(records(&[&["a", "y"], &["1", "99999999999999999999999"]])).unwrap();
    assert!(matches!(build(&t, 0), Err(TableError::Format { row: 0, column: 1 })));
}

#[test]
fn non_numeric_field_is_a_format_error() {
    let r = RawTable::from_records(records(&[&["a", "b", "y"], &["1", "2", "0"], &["3", "four", "1"]]));
    assert!(matches!(r, Err(TableError::Format { row: 1, column: 1 })));
}

#[test]
fn build_drops_leading_column_and_takes_last_as_label() {
    let t = RawTable::from_records(records(&[
        &["id", "area", "rooms", "price"],
        &["1", "120.5", "3", "2.7"],
        &["2", "80", "2", "0"],
    ]))
    .unwrap();
    let d = build(&t, 1).unwrap();
    assert_eq!(d.num_rows(), 2);
    assert_eq!(d.num_features(), 2);
    assert_eq!(d.feature_names, strings(&["area", "rooms"]));
    assert_eq!(d.features, records(&[&["120.5", "3"], &["80", "2"]]));
    assert_eq!(d.labels, vec![2, 0]);
}

#[test]
fn build_keeps_all_leading_columns_when_none_dropped() {
    let t = RawTable::from_records(records(&[&["a", "b", "c", "y"], &["1", "2", "3", "1"]])).unwrap();
    let d = build(&t, 0).unwrap();
    assert_eq!(d.num_rows(), 1);
    assert_eq!(d.num_features(), 3);
}

#[test]
fn build_with_too_few_columns_fails() {
    let t = RawTable::from_records(records(&[&["id", "y"], &["1", "0"]])).unwrap();
    assert!(matches!(build(&t, 2), Err(TableError::TooFewColumns { columns: 2, dropped: 2 })));
    assert!(build(&t, 1).is_ok());
}

#[test]
fn build_rechecks_a_hand_made_table() {
    let t = RawTable { headers: strings(&["a", "y"]), rows: records(&[&["1", "0"], &["2"]]) };
    assert!(matches!(build(&t, 0), Err(TableError::Shape { row: 1, expected: 2, found: 1 })));
}

fn ten_rows() -> Dataset {
    let mut recs = vec![strings(&["f1", "f2", "f3", "y"])];
    for i in 0..10usize {
        let label = if i % 2 == 0 { "0" } else { "1" };
        recs.push(vec![i.to_string(), (i * 2).to_string(), (i * 3).to_string(), label.to_string()]);
    }
    build(&RawTable::from_records(recs).unwrap(), 0).unwrap()
}

#[test]
fn split_ten_rows_at_eight_tenths() {
    let d = ten_rows();
    assert_eq!(d.labels.iter().filter(|&&l| l == 1).count(), 5);
    let (train, test) = d.split(8, 10).unwrap();
    assert_eq!(train.num_rows(), 8);
    assert_eq!(test.num_rows(), 2);
    assert_eq!(train.feature_names, d.feature_names);
    assert_eq!(test.feature_names, d.feature_names);
    let mut rows = train.features.clone();
    rows.extend(test.features.clone());
    assert_eq!(rows, d.features);
    let mut labels = train.labels.clone();
    labels.extend(test.labels.clone());
    assert_eq!(labels, d.labels);
}

#[test]
fn split_rounds_the_train_share_down() {
    let d = ten_rows();
    let (train, test) = d.split(2, 3).unwrap();
    assert_eq!(train.num_rows(), 6);
    assert_eq!(test.num_rows(), 4);
}

#[test]
fn split_refuses_ratios_outside_the_open_interval() {
    let d = ten_rows();
    assert!(matches!(d.split(0, 10), Err(SplitError::RatioOutOfRange { numerator: 0, denominator: 10 })));
    assert!(matches!(d.split(10, 10), Err(SplitError::RatioOutOfRange { .. })));
    assert!(matches!(d.split(3, 2), Err(SplitError::RatioOutOfRange { .. })));
}

#[test]
fn split_refuses_an_empty_part() {
    let d = ten_rows();
    assert!(matches!(d.split(1, 20), Err(SplitError::EmptyPart { rows: 10, train: 0 })));
    let (train, test) = d.split(99, 100).unwrap();
    assert_eq!((train.num_rows(), test.num_rows()), (9, 1));
}

#[test]
fn rank_orders_by_score_descending() {
    let r = rank(&strings(&["a", "b", "c", "d"]), &vec![5, 9, 0, 7]).unwrap();
    assert_eq!(
        names_and_scores(&r),
        vec![("b".to_string(), 9), ("d".to_string(), 7), ("a".to_string(), 5), ("c".to_string(), 0)]
    );
}

#[test]
fn rank_keeps_feature_order_on_ties() {
    let r = rank(&strings(&["a", "b", "c", "d", "e"]), &vec![3, 8, 3, 8, 3]).unwrap();
    let names: Vec<String> = r.iter().map(|e| e.name.clone()).collect();
    assert_eq!(names, strings(&["b", "d", "a", "c", "e"]));
}

#[test]
fn rank_of_a_ranking_is_the_same_ranking() {
    let first = rank(&strings(&["a", "b", "c", "d"]), &vec![2, 6, 2, 4]).unwrap();
    let names: Vec<String> = first.iter().map(|e| e.name.clone()).collect();
    let scores: Vec<u64> = first.iter().map(|e| e.score).collect();
    let again = rank(&names, &scores).unwrap();
    assert_eq!(names_and_scores(&again), names_and_scores(&first));
}

#[test]
fn rank_with_mismatched_lengths_fails() {
    let r = rank(&strings(&["a", "b"]), &vec![1]);
    assert!(matches!(r, Err(LengthMismatch { names: 2, scores: 1 })));
}

#[test]
fn rank_of_nothing_is_empty() {
    assert!(rank(&vec![], &vec![]).unwrap().is_empty());
}

#[test]
fn truncation_stops_at_the_first_zero() {
    let entries = vec![
        RankedFeature { name: "a".to_string(), score: 3 },
        RankedFeature { name: "b".to_string(), score: 0 },
        RankedFeature { name: "c".to_string(), score: 1 },
    ];
    let kept = truncate_at_first_zero(entries);
    assert_eq!(names_and_scores(&kept), vec![("a".to_string(), 3)]);
}

#[test]
fn truncation_without_zero_keeps_everything() {
    let entries = vec![
        RankedFeature { name: "a".to_string(), score: 3 },
        RankedFeature { name: "b".to_string(), score: 1 },
    ];
    assert_eq!(truncate_at_first_zero(entries).len(), 2);
    let first_zero = vec![RankedFeature { name: "z".to_string(), score: 0 }];
    assert!(truncate_at_first_zero(first_zero).is_empty());
}

#[test]
fn labels_round_trip_through_records() {
    let labels: Vec<usize> = vec![3, 0, 17, 1, 1, 250];
    let recs = label_records(&labels);
    assert_eq!(recs, records(&[&["3"], &["0"], &["17"], &["1"], &["1"], &["250"]]));
    let t = RawTable::new(strings(&["label"]), recs).unwrap();
    assert_eq!(t.column_labels(0).unwrap(), labels);
}

#[test]
fn single_leaf_tree_renders_one_node_and_no_edge() {
    let tree = DecisionTree { nodes: vec![TreeNode::Leaf { class: 4 }] };
    let lines = tree.export(&strings(&["a"])).unwrap();
    assert_eq!(
        lines,
        strings(&[
            "digraph decision_tree {",
            "    layout = sfdp;",
            "    concentrate = true;",
            "    ratio = 0.5;",
            "    0 [label=\"4\"];",
            "}",
        ])
    );
    assert!(!lines.iter().any(|l| l.contains("->")));
}

#[test]
fn split_tree_renders_in_pre_order() {
    let tree = DecisionTree {
        nodes: vec![
            TreeNode::Split { feature: 1, threshold: "2.5".to_string(), when_true: 1, when_false: 4 },
            TreeNode::Split { feature: 0, threshold: "10".to_string(), when_true: 2, when_false: 3 },
            TreeNode::Leaf { class: 0 },
            TreeNode::Leaf { class: 1 },
            TreeNode::Leaf { class: 2 },
        ],
    };
    let lines = tree.export(&strings(&["area", "rooms"])).unwrap();
    assert_eq!(
        lines[4..lines.len() - 1].to_vec(),
        strings(&[
            "    0 [label=\"Feature rooms <= 2.5\"];",
            "    0 -> 1 [label=\"true\"];",
            "    0 -> 4 [label=\"false\"];",
            "    1 [label=\"Feature area <= 10\"];",
            "    1 -> 2 [label=\"true\"];",
            "    1 -> 3 [label=\"false\"];",
            "    2 [label=\"0\"];",
            "    3 [label=\"1\"];",
            "    4 [label=\"2\"];",
        ])
    );
    assert_eq!(lines.last().unwrap(), "}");
}

#[test]
fn unknown_feature_is_an_invariant_violation() {
    let tree = DecisionTree {
        nodes: vec![
            TreeNode::Split { feature: 2, threshold: "1".to_string(), when_true: 1, when_false: 2 },
            TreeNode::Leaf { class: 0 },
            TreeNode::Leaf { class: 1 },
        ],
    };
    let r = tree.export(&strings(&["a", "b"]));
    assert!(matches!(r, Err(GraphError::FeatureOutOfRange { node: 0, feature: 2 })));
}

#[test]
fn malformed_and_empty_trees_are_refused() {
    let cyclic = DecisionTree {
        nodes: vec![TreeNode::Split { feature: 0, threshold: "1".to_string(), when_true: 0, when_false: 0 }],
    };
    assert!(matches!(cyclic.export(&strings(&["a"])), Err(GraphError::Malformed { node: 0 })));
    let swapped = DecisionTree {
        nodes: vec![
            TreeNode::Split { feature: 0, threshold: "1".to_string(), when_true: 2, when_false: 1 },
            TreeNode::Leaf { class: 0 },
            TreeNode::Leaf { class: 1 },
        ],
    };
    assert!(matches!(swapped.export(&strings(&["a"])), Err(GraphError::Malformed { node: 0 })));
    let shared = DecisionTree {
        nodes: vec![
            TreeNode::Split { feature: 0, threshold: "1".to_string(), when_true: 1, when_false: 1 },
            TreeNode::Leaf { class: 0 },
        ],
    };
    assert!(matches!(shared.export(&strings(&["a"])), Err(GraphError::Malformed { node: 0 })));
    let leftover = DecisionTree { nodes: vec![TreeNode::Leaf { class: 0 }, TreeNode::Leaf { class: 1 }] };
    assert!(matches!(leftover.export(&strings(&["a"])), Err(GraphError::Malformed { node: 1 })));
    let empty = DecisionTree { nodes: vec![] };
    assert!(matches!(empty.export(&strings(&["a"])), Err(GraphError::Empty)));
}

#[test]
fn unknown_feature_deep_in_the_tree_is_reported_at_its_node() {
    let tree = DecisionTree {
        nodes: vec![
            TreeNode::Split { feature: 0, threshold: "1".to_string(), when_true: 1, when_false: 4 },
            TreeNode::Split { feature: 5, threshold: "2".to_string(), when_true: 2, when_false: 3 },
            TreeNode::Leaf { class: 0 },
            TreeNode::Leaf { class: 1 },
            TreeNode::Leaf { class: 2 },
        ],
    };
    let r = tree.export(&strings(&["a", "b"]));
    assert!(matches!(r, Err(GraphError::FeatureOutOfRange { node: 1, feature: 5 })));
}
