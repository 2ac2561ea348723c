//! The error kinds of the reader.
use vstd::prelude::*;

verus! {

/// What went wrong while reading the database.
#[derive(Debug, Clone, Copy, PartialEq, Eq, Structural)]
pub enum DbError {
    /// The underlying read or seek failed.
    Io,
    /// The file does not start with `SQLite format 3\0`.
    FormatMagic,
    /// The database header holds an invalid page size or text encoding, or its
    /// page count does not match the file length.
    FormatHeader,
    /// A buffer ended before a structural decoder completed.
    FormatTruncated,
    /// A record's header length is smaller than its own varint, or negative.
    FormatRecord,
    /// A B-tree page's type byte is neither table-leaf nor table-internal.
    UnsupportedPageType(u8),
    /// A page number outside `[1, page-count]`, or a cell pointer outside the page
    /// or below the cell content area.
    Bounds,
    /// The page has not been read into the cache yet.
    NotLoaded,
    /// No table of that name is in the schema.
    UnknownTable,
    /// The statement shape is not supported.
    Unimplemented,
}

} // verus!
