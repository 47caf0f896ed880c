//! A small spreadsheet engine whose cells hold byte constants or formulas
//! counting how often a value occurs in a rectangular region.

pub mod cell;
pub mod check;
pub mod coordinates;
pub mod descriptor;
pub mod graph;
pub mod propagation;
pub mod quarantine;
pub mod rectangle;
pub mod render;
pub mod spreadsheet;
