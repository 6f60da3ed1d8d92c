//! A census of a directory subtree: classification of files, per-folder
//! recursive totals, per-category histograms and the largest files, with the
//! arithmetic and the bookkeeping of a scan stated as contracts and proved.

pub mod census;
pub mod classify;
pub mod cleanup;
pub mod counters;
pub mod discovery;
pub mod errors;
pub mod estimator;
pub mod folder_order;
pub mod folders;
pub mod histogram;
pub mod logging;
pub mod models;
pub mod order;
pub mod paths;
pub mod progress;
pub mod queries;
pub mod ranking;
pub mod results;
pub mod scan;
pub mod seqs;
pub mod session;
pub mod sums;
pub mod text;
pub mod walk;
pub mod worker;
