//! Reads `.xlsx` workbooks: sheets with many rows and columns and many merged
//! cells, kept sparse.
//!
//! [`pipeline::run`] takes a package's bytes to a [`Workbook`]. Whatever needs
//! floating point is asked of the caller: taking a date serial apart, and placing a
//! picture that lies in groups. Numbers keep the notation that the package has for
//! them, and are equal if they denote the same double-precision number.
pub mod binary64;
pub mod container;
pub mod date;
pub mod error;
pub mod json;
pub mod model;
pub mod natural;
pub mod number;
pub mod parse;
pub mod pipeline;
pub mod pipeline_laws;
pub mod resolve;
pub mod sort;
pub mod text;

pub use container::sanitize::SizeLimits;
pub use error::Error;
pub use model::cell::{Cell, CellRef, CellValue, DateTimeValue};
pub use model::color::{ColorRef, Rgb, ThemePalette};
pub use model::range::ColWidthRange;
pub use model::region::MergedRegion;
pub use model::sheet::{
    AnchorMarker, Hyperlink, Image, ImageAnchor, ImageExtent, Sheet, SheetVisibility,
};
pub use model::style::{Alignment, Borders, Font, ResolvedStyle, StyleId};
pub use model::workbook::Workbook;
pub use resolve::color::resolve_color;
