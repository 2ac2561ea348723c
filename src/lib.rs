//! A read-only reader of the "format 3" single-file SQL database layout.
//!
//! The library is pure: it never touches a file. The [`pager::Pager`] keeps the
//! pages that its caller has read from disk, and the row iterator asks for a page
//! whenever the one it needs is not cached yet.
pub mod bytes;
pub mod error;
pub mod page;
pub mod pager;
pub mod record;
pub mod schema;
pub mod table_iter;
pub mod varint;
pub mod walk;

pub use error::DbError;
pub use varint::parse_varint;
