//! The library's error type.
use vstd::prelude::*;

verus! {

/// Everything that reading a workbook can fail with.
#[derive(Debug, Clone, PartialEq, Eq)]
pub enum Error {
    /// Reading or writing outside the library failed.
    Io { path: Option<String>, message: String },
    /// The package, or a value in one of its parts, is malformed.
    InvalidPackage(String),
    /// An entry name would escape the archive's root.
    ZipSlipDetected { entry_name: String },
    /// An uncompressed-size cap was exceeded.
    ZipBombDetected { limit: u64, actual: u64 },
    /// A relationship part that must exist is missing.
    MissingRelationshipPart(String),
    /// A relationship is absent, or its target is.
    DanglingRelationship { r_id: String },
    /// A part is not well-formed XML.
    XmlParse { path: String },
    /// A part carries a document type declaration.
    DoctypeRejected { path: String },
    /// An element or attribute that must exist is missing.
    MissingRequiredElement { path: String, name: &'static str },
    /// A cell reference is malformed or out of range.
    InvalidCellRef(String),
    /// A cell refers to a shared string that the table does not have.
    SharedStringIndexOutOfBounds { index: usize, len: usize },
    /// A cell refers to a style that the stylesheet does not have.
    InvalidStyleId(u32),
    /// A merged range is reversed or overlaps another.
    InvalidMergedRange { start: String, end: String, reason: String },
    /// A sheet declares too many merged ranges.
    TooManyMergedRanges { count: usize, limit: usize },
    /// A column width range is reversed or overlaps another.
    InvalidColumnWidthRange { min: u32, max: u32, reason: String },
    /// A sheet declares too many column width ranges.
    TooManyColumnWidthRanges { count: usize, limit: usize },
    /// A row height range overlaps another.
    InvalidRowHeightRange { min: u32, max: u32, reason: String },
    /// A sheet declares too many row height ranges.
    TooManyRowHeightRanges { count: usize, limit: usize },
    /// A hyperlink range is reversed or overlaps another.
    InvalidHyperlinkRange { start: String, end: String, reason: String },
    /// A sheet declares too many hyperlinks.
    TooManyHyperlinks { count: usize, limit: usize },
    /// A sheet holds too many cells.
    TooManyCells { path: String, count: usize, limit: usize },
    /// Drawing groups are nested too deeply.
    TooManyNestedGroups { path: String, depth: usize, limit: usize },
    /// Writing JSON failed.
    JsonSerialize { message: String },
}

/// An error as contracts speak of it.
#[verifier::ext_equal]
pub enum ErrorView {
    Io { path: Option<Seq<char>>, message: Seq<char> },
    InvalidPackage(Seq<char>),
    ZipSlipDetected { entry_name: Seq<char> },
    ZipBombDetected { limit: u64, actual: u64 },
    MissingRelationshipPart(Seq<char>),
    DanglingRelationship { r_id: Seq<char> },
    XmlParse { path: Seq<char> },
    DoctypeRejected { path: Seq<char> },
    MissingRequiredElement { path: Seq<char>, name: Seq<char> },
    InvalidCellRef(Seq<char>),
    SharedStringIndexOutOfBounds { index: usize, len: usize },
    InvalidStyleId(u32),
    InvalidMergedRange { start: Seq<char>, end: Seq<char>, reason: Seq<char> },
    TooManyMergedRanges { count: usize, limit: usize },
    InvalidColumnWidthRange { min: u32, max: u32, reason: Seq<char> },
    TooManyColumnWidthRanges { count: usize, limit: usize },
    InvalidRowHeightRange { min: u32, max: u32, reason: Seq<char> },
    TooManyRowHeightRanges { count: usize, limit: usize },
    InvalidHyperlinkRange { start: Seq<char>, end: Seq<char>, reason: Seq<char> },
    TooManyHyperlinks { count: usize, limit: usize },
    TooManyCells { path: Seq<char>, count: usize, limit: usize },
    TooManyNestedGroups { path: Seq<char>, depth: usize, limit: usize },
    JsonSerialize { message: Seq<char> },
}

impl View for Error {
    type V = ErrorView;

    open spec fn view(&self) -> ErrorView {
        match *self {
            Error::Io { path, message } => ErrorView::Io {
                path: crate::text::text_opt(path),
                message: message@,
            },
            Error::InvalidPackage(m) => ErrorView::InvalidPackage(m@),
            Error::ZipSlipDetected { entry_name } => ErrorView::ZipSlipDetected {
                entry_name: entry_name@,
            },
            Error::ZipBombDetected { limit, actual } => ErrorView::ZipBombDetected {
                limit,
                actual,
            },
            Error::MissingRelationshipPart(p) => ErrorView::MissingRelationshipPart(p@),
            Error::DanglingRelationship { r_id } => ErrorView::DanglingRelationship { r_id: r_id@ },
            Error::XmlParse { path } => ErrorView::XmlParse { path: path@ },
            Error::DoctypeRejected { path } => ErrorView::DoctypeRejected { path: path@ },
            Error::MissingRequiredElement { path, name } => ErrorView::MissingRequiredElement {
                path: path@,
                name: name@,
            },
            Error::InvalidCellRef(m) => ErrorView::InvalidCellRef(m@),
            Error::SharedStringIndexOutOfBounds { index, len } =>
                ErrorView::SharedStringIndexOutOfBounds { index, len },
            Error::InvalidStyleId(id) => ErrorView::InvalidStyleId(id),
            Error::InvalidMergedRange { start, end, reason } => ErrorView::InvalidMergedRange {
                start: start@,
                end: end@,
                reason: reason@,
            },
            Error::TooManyMergedRanges { count, limit } => ErrorView::TooManyMergedRanges {
                count,
                limit,
            },
            Error::InvalidColumnWidthRange { min, max, reason } =>
                ErrorView::InvalidColumnWidthRange { min, max, reason: reason@ },
            Error::TooManyColumnWidthRanges { count, limit } =>
                ErrorView::TooManyColumnWidthRanges { count, limit },
            Error::InvalidRowHeightRange { min, max, reason } => ErrorView::InvalidRowHeightRange {
                min,
                max,
                reason: reason@,
            },
            Error::TooManyRowHeightRanges { count, limit } => ErrorView::TooManyRowHeightRanges {
                count,
                limit,
            },
            Error::InvalidHyperlinkRange { start, end, reason } =>
                ErrorView::InvalidHyperlinkRange { start: start@, end: end@, reason: reason@ },
            Error::TooManyHyperlinks { count, limit } => ErrorView::TooManyHyperlinks {
                count,
                limit,
            },
            Error::TooManyCells { path, count, limit } => ErrorView::TooManyCells {
                path: path@,
                count,
                limit,
            },
            Error::TooManyNestedGroups { path, depth, limit } => ErrorView::TooManyNestedGroups {
                path: path@,
                depth,
                limit,
            },
            Error::JsonSerialize { message } => ErrorView::JsonSerialize { message: message@ },
        }
    }
}

/// A result as contracts speak of it, for a value that has a view.
pub open spec fn result_view<T: View>(r: Result<T, Error>) -> Result<T::V, ErrorView> {
    match r {
        Ok(v) => Ok(v@),
        Err(e) => Err(e@),
    }
}

/// A result as contracts speak of it, for a value that stands for itself.
pub open spec fn plain_result<T>(r: Result<T, Error>) -> Result<T, ErrorView> {
    match r {
        Ok(v) => Ok(v),
        Err(e) => Err(e@),
    }
}

/// Puts `path` into an [`Error::Io`] that names no file yet; every other error
/// is handed back as it is.
pub fn fill_io_path(err: Error, path: &str) -> (r: Error)
    ensures
        match err {
            Error::Io { path: None, message } => r@ == (ErrorView::Io {
                path: Some(path@),
                message: message@,
            }),
            _ => r == err,
        },
{
    match err {
        Error::Io { path: None, message } => Error::Io { path: Some(path.to_owned()), message },
        other => other,
    }
}

} // verus!
