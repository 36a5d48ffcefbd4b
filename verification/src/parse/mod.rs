//! The parts of a package.
pub mod drawing;
pub mod drawing_laws;
pub mod iso8601;
pub mod iso8601_laws;
pub mod number_format;
pub mod part;
pub mod relationships;
pub mod shared_strings;
pub mod styles;
pub mod styles_laws;
pub mod theme;
pub mod workbook;
pub mod rich_text;
pub mod worksheet;
pub mod worksheet_laws;
pub mod xml;
