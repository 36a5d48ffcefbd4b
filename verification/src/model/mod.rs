//! The workbook data model.
pub mod cell;
pub mod color;
pub mod grid;
pub mod range;
pub mod region;
pub mod sheet;
pub mod style;
pub mod workbook;
