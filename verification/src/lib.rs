//! Aligns pipe-delimited Markdown tables: parses rows of `|`-separated cells,
//! measures display widths, and re-renders every column padded to a common
//! width. A document scanner applies the same transform to table blocks found
//! inside a larger text, leaving all other lines untouched.

pub mod text;
pub mod width;
pub mod table;
pub mod document;
pub mod laws;

pub use table::{TableError, TableFormatter};
