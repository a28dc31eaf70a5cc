//! Cross-tabulation of normalized tables.
//!
//! A table in normalized form holds one observation per row: some columns
//! identify the row of the crosstab that the observation belongs to, some its
//! column, and some hold the values. [`pivot::crosstab`] turns such a table
//! into its crosstab: one row for each distinct row key, and after the row key
//! one column for each distinct column key and value column. Keys stand in the
//! order in which the input first shows them. Where several input rows fall
//! into one cell, the first one fills it and the others are reported as a
//! collision.
//!
//! The work is done in five steps, each in a module of its own:
//! [`schema`] checks the request against the table, [`keys`] collects the
//! distinct keys, [`cells`] files the rows under their keys, [`header`] lays out
//! the columns, and [`output`] puts the table together. [`laws`] states what
//! holds of every crosstab.

pub mod args;
pub mod cells;
pub mod header;
pub mod keys;
pub mod laws;
pub mod output;
pub mod pivot;
pub mod schema;
pub mod table;
pub mod text;
