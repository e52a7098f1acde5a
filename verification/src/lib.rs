//! A small object store: named objects with typed fields, and the text format that
//! persists them.
//!
//! A backing file is a text of lines. Its first line is a header, which the writer
//! sets to `sosdb` and the reader passes over. Each object is a block of lines,
//! followed by an empty line:
//!
//! ```text
//! sosdb
//! object <name>
//!   <field>=<tag>:<payload>
//!   <field>=<tag>:<payload>
//! end
//!
//! ```
//!
//! The tag is `s` for a string, `i` for a 32-bit signed integer, `f` for a 32-bit
//! float and `b` for a boolean. The library keeps a float as the text that denotes
//! it and leaves the arithmetic to its callers.
//!
//! Reading and writing files is left to the caller as well: [`Database::save`] gives
//! the text to write, and [`Database::load`] takes the text that was read.

pub mod database;
pub mod float_text;
pub mod integer;
pub mod lines;
pub mod object;
pub mod reader;
pub mod reload;
pub mod roundtrip;
pub mod search;
pub mod text;
pub mod value;

pub use database::{Database, DatabaseLoadError};
pub use float_text::FloatText;
pub use object::Object;
pub use value::{Value, ValueParseError};
