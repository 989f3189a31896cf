//! A piece-table text store for an editor, with the cursor and the session
//! logic that drive it.
//!
//! The document lives in [`piece_table::PieceTable`]: an immutable original
//! buffer, an append-only added buffer, and an ordered list of pieces over the
//! two. What a piece list denotes, and what edits do to it, is stated in
//! [`document`] and [`edits`]; [`text`] relates the document's bytes to text.
//! [`cursor`], [`lines`], [`screen`] and [`editor`] hold what an editor's front
//! end decides between two frames.
pub mod buffer;
pub mod cursor;
pub mod document;
pub mod editor;
pub mod edits;
pub mod lines;
pub mod piece_table;
pub mod screen;
pub mod text;
