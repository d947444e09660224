//! Resolution of a small spreadsheet-like table: cells are decimal literals or
//! references `column@offset` into a column index; rows whose references cannot
//! all be resolved are dropped, and resolved rows feed a cascading-cost and a
//! named-sum aggregation.
pub mod decimal;
pub mod error;
pub mod naming;
pub mod csv_parser;
pub mod formula_evaluator;
pub mod calculator;
