//! Exact-integer fund accounting: posting rules, tax-lot relief, wash sales,
//! partner allocation, views of record and the shadow-run reconciliation check.
//!
//! Every amount is an integer number of minor units, every division that
//! would round is refused, and every multiply that could wrap is checked.

pub mod text;
pub mod checked;
pub mod relief;
pub mod order;
pub mod holding;
pub mod wash;
pub mod per_unit;
pub mod chart;
pub mod partners;
pub mod rules;
pub mod dates;
pub mod config;
pub mod compile;
pub mod findings;
pub mod fees;
pub mod render;
pub mod recon;
pub mod shadow;
pub mod intake;
pub mod lots;
pub mod merge;
pub mod table;
pub mod fold;
pub mod translation;
pub mod lotbook;
pub mod viewfold;
pub mod projection;
pub mod inflight;
pub mod views;
pub mod project;
pub mod checkpoint;
pub mod sale;
