//! Ingestion of a numeric table with a header row, construction of a labelled
//! dataset, a reproducible ratio split, ranking of feature importances, and
//! rendering of a decision tree as a directed graph.
//!
//! Numeric fields stay in their decimal text form: the library checks that
//! they are numerals and reads class labels from them exactly, and leaves
//! conversion to binary floating point to the learner's side.

pub mod numeral;
pub mod table;
pub mod dataset;
pub mod graph;
pub mod labels;
pub mod ranking;
pub mod shuffle;
