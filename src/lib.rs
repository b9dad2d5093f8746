//! A small parser for PSF2 ("psfu") console fonts: header, Unicode table and
//! glyph bitmaps, with every step checked against its contract.

pub mod font;
pub mod header;
pub mod table;

pub use font::{Font, FALLBACK_GLYPH};
pub use header::{as_u32_le, Flags, Header, LoadError, MAGIC};
pub use table::TABLE_CAPACITY;
