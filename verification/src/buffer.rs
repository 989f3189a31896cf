//! An open document: a piece table and the path it was loaded from.
use crate::piece_table::{Piece, PieceTable, Source};
use vstd::prelude::*;
use vstd::utf8::*;

verus! {

/// A document being edited, and where it came from if it came from a file.
pub struct Buffer {
    pub path: Option<String>,
    pub pt: PieceTable,
}

impl Buffer {
    /// A new, empty document that has no path.
    pub fn new() -> (buffer: Self)
        ensures
            buffer.path is None,
            buffer.pt@ == Seq::<u8>::empty(),
            buffer.pt.piece_list() == Seq::<Piece>::empty(),
            buffer.pt.original() == Seq::<u8>::empty(),
            buffer.pt.added() == Seq::<u8>::empty(),
    {
        Buffer { path: None, pt: PieceTable::new() }
    }

    /// The document loaded from `path`, whose content is `content`.
    pub fn from(path: &str, content: String) -> (buffer: Self)
        ensures
            buffer.path matches Some(p) && p@ == path@,
            buffer.pt@ == encode_utf8(content@),
            buffer.pt.original() == encode_utf8(content@),
            buffer.pt.added() == Seq::<u8>::empty(),
            buffer.pt.piece_list() == seq![
                Piece {
                    source: Source::Original,
                    offset: 0,
                    length: encode_utf8(content@).len() as usize,
                },
            ],
    {
        Buffer { path: Some(path.to_owned()), pt: PieceTable::init(content) }
    }
}

} // verus!
