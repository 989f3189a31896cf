//! The piece table: a document held as a list of pieces over an immutable
//! original buffer and an append-only added buffer.
use crate::document::{
    all_in_bounds, back, document, excised, front, in_bounds, kept, lemma_document_len,
    lemma_document_one, lemma_empty, lemma_end_of, lemma_ends_monotone, lemma_extends,
    lemma_growth_keeps_pieces, lemma_insert_appended, lemma_locate, lemma_locate_from,
    lemma_locate_monotone, lemma_locate_step, lemma_push, lemma_with_delete, locate, locate_from,
    none_empty, piece_bytes, spliced, start_of, total_length, with_delete, with_insert, Buffers,
};
use crate::edits::{performs, Edit};
use crate::text::{decode_lossy, lemma_encode_concat, lossy_text};
use vstd::prelude::*;
use vstd::slice::slice_subrange;
use vstd::string::StringSliceAdditionalSpecFns;
use vstd::utf8::*;

verus! {

/// Which backing buffer a piece reads from.
#[derive(Debug, Clone, Copy, PartialEq, Eq, Structural)]
pub enum Source {
    /// The immutable content the table was seeded with.
    Original,
    /// The append-only buffer of everything inserted since.
    Added,
}

/// A run of `length` bytes starting at `offset` in one backing buffer.
#[derive(Debug, Clone, Copy, PartialEq, Eq, Structural)]
pub struct Piece {
    pub source: Source,
    pub offset: usize,
    pub length: usize,
}

/// A piece found by a scan of the list, with its index in the list and the
/// document offset at which it starts.
#[derive(Debug, Clone, Copy, PartialEq, Eq, Structural)]
pub struct PieceSearch {
    pub piece: Piece,
    pub index: usize,
    pub piece_start: u64,
}

/// What a scan reports for piece `i` of `ps`.
pub open spec fn search_at(ps: Seq<Piece>, i: int) -> PieceSearch {
    PieceSearch { piece: ps[i], index: i as usize, piece_start: start_of(ps, i) as u64 }
}

/// How many pieces the range of `n` bytes from `x` touches: those from the
/// first whose end reaches `x` through the first whose end reaches `x + n`, or
/// through the last piece where none reaches `x + n`.
pub open spec fn matched_count(ps: Seq<Piece>, x: int, n: int) -> int {
    let first = locate(ps, x);
    let last = locate(ps, x + n);
    if first >= ps.len() {
        0
    } else if last < ps.len() {
        last - first + 1
    } else {
        ps.len() - first
    }
}

/// A document as an ordered list of pieces over two backing buffers. Its view
/// is the document's bytes.
#[derive(Debug)]
pub struct PieceTable {
    ro_buffer: String,
    add_buffer: String,
    pieces: Vec<Piece>,
}

impl View for PieceTable {
    type V = Seq<u8>;

    open spec fn view(&self) -> Seq<u8> {
        document(self.piece_list(), self.buffers())
    }
}

impl Clone for PieceTable {
    /// A table with the same buffers and the same pieces.
    fn clone(&self) -> (copy: Self)
        ensures
            copy.original() == self.original(),
            copy.added() == self.added(),
            copy.piece_list() == self.piece_list(),
            copy@ == self@,
    {
        proof {
            use_type_invariant(self);
        }
        let pieces = self.pieces.clone();
        assert(pieces@ =~= self.pieces@);
        PieceTable {
            ro_buffer: self.ro_buffer.clone(),
            add_buffer: self.add_buffer.clone(),
            pieces,
        }
    }
}

impl PieceTable {
    /// The bytes of the original buffer.
    pub closed spec fn original(&self) -> Seq<u8> {
        encode_utf8(self.ro_buffer@)
    }

    /// The bytes of the added buffer.
    pub closed spec fn added(&self) -> Seq<u8> {
        encode_utf8(self.add_buffer@)
    }

    /// The pieces, in document order.
    pub closed spec fn piece_list(&self) -> Seq<Piece> {
        self.pieces@
    }

    /// The two backing buffers, as bytes.
    pub open spec fn buffers(&self) -> Buffers {
        Buffers { original: self.original(), added: self.added() }
    }

    /// Every piece lies within the buffer it reads from.
    pub open spec fn well_formed(&self) -> bool {
        all_in_bounds(self.piece_list(), self.buffers())
    }

    /// Holds of every table: no call leaves a piece outside its buffer.
    #[verifier::type_invariant]
    spec fn inv(&self) -> bool {
        self.well_formed()
    }

    /// An empty table: empty buffers, no pieces.
    pub fn new() -> (table: Self)
        ensures
            table.original() == Seq::<u8>::empty(),
            table.added() == Seq::<u8>::empty(),
            table.piece_list() == Seq::<Piece>::empty(),
            table@ == Seq::<u8>::empty(),
            table.well_formed(),
    {
        let table = PieceTable {
            ro_buffer: String::new(),
            add_buffer: String::new(),
            pieces: Vec::new(),
        };
        proof {
            lemma_empty(table.buffers());
            assert(table.pieces@ =~= Seq::<Piece>::empty());
        }
        table
    }

    /// A table seeded with `base_content`: one piece over the whole original
    /// buffer.
    pub fn init(base_content: String) -> (table: Self)
        ensures
            table.original() == encode_utf8(base_content@),
            table.added() == Seq::<u8>::empty(),
            table.piece_list() == seq![
                Piece {
                    source: Source::Original,
                    offset: 0,
                    length: encode_utf8(base_content@).len() as usize,
                },
            ],
            table@ == encode_utf8(base_content@),
            encode_utf8(base_content@).len() > 0 ==> none_empty(table.piece_list()),
            table.well_formed(),
    {
        let length = base_content.as_str().as_bytes().len();
        let whole = Piece { source: Source::Original, offset: 0, length };
        let mut pieces: Vec<Piece> = Vec::new();
        pieces.push(whole);
        let table = PieceTable { ro_buffer: base_content, add_buffer: String::new(), pieces };
        proof {
            lemma_document_one(whole, table.buffers());
            assert(table.piece_list() =~= seq![whole]);
            assert(piece_bytes(whole, table.buffers()) =~= table.original());
        }
        table
    }

    /// Appends `content` to the end of the document, as one new piece.
    pub fn append(&mut self, content: &str)
        ensures
            final(self)@ == old(self)@ + content.spec_bytes(),
            final(self).original() == old(self).original(),
            final(self).added() == old(self).added() + content.spec_bytes(),
            final(self).piece_list() == old(self).piece_list().push(
                (Piece {
                    source: Source::Added,
                    offset: old(self).added().len() as usize,
                    length: content.spec_bytes().len() as usize,
                }),
            ),
            none_empty(old(self).piece_list()) && content.spec_bytes().len() > 0 ==> none_empty(
                final(self).piece_list(),
            ),
            performs(*old(self), (Edit::Append { content: content.spec_bytes() }), *final(self)),
            final(self).well_formed(),
    {
        let ghost before = self.buffers();
        proof {
            use_type_invariant(&*self);
            lemma_extends(self.added(), content.spec_bytes());
        }
        let mut pieces: Vec<Piece> = Vec::new();
        let mut add_buffer = String::new();
        core::mem::swap(&mut pieces, &mut self.pieces);
        core::mem::swap(&mut add_buffer, &mut self.add_buffer);
        let fresh = Piece {
            source: Source::Added,
            offset: add_buffer.as_str().as_bytes().len(),
            length: content.as_bytes().len(),
        };
        let ghost ps = pieces@;
        proof {
            lemma_encode_concat(add_buffer@, content@);
        }
        add_buffer.append(content);
        pieces.push(fresh);
        // The grown buffer has a `usize` length, so the new piece ends within one.
        let grown = add_buffer.as_str().as_bytes().len();
        assert(fresh.offset + fresh.length == grown);
        self.add_buffer = add_buffer;
        proof {
            let after = self.buffers();
            lemma_growth_keeps_pieces(ps, before, after);
            assert(piece_bytes(fresh, after) =~= content.spec_bytes());
            lemma_push(ps, fresh, after);
        }
        self.pieces = pieces;
    }

    /// Whether `offset` is a position of the document: at most its length.
    pub fn is_offset_valid(pieces: &Vec<Piece>, offset: u32) -> (valid: bool)
        ensures
            valid == (offset <= total_length(pieces@)),
    {
        let mut remaining: u64 = offset as u64;
        let mut i: usize = 0;
        proof {
            lemma_empty(Buffers { original: Seq::empty(), added: Seq::empty() });
            assert(pieces@.take(0) =~= Seq::<Piece>::empty());
        }
        while i < pieces.len()
            invariant
                i <= pieces.len(),
                start_of(pieces@, i as int) + remaining == offset,
            decreases pieces.len() - i,
        {
            let p = pieces[i];
            proof {
                lemma_end_of(pieces@, i as int);
                lemma_ends_monotone(pieces@, i + 1, pieces@.len() as int);
            }
            if p.length as u64 >= remaining {
                return true;
            }
            remaining = remaining - p.length as u64;
            i = i + 1;
        }
        proof {
            assert(pieces@.take(pieces@.len() as int) =~= pieces@);
        }
        remaining == 0
    }

    /// The first piece whose end is at or past `offset`, with its index and
    /// start; `None` where no piece reaches `offset`. An offset on a boundary
    /// between two pieces finds the piece that ends there.
    pub fn find_piece_at_offset(pieces: &Vec<Piece>, offset: u32) -> (found: Option<PieceSearch>)
        ensures
            match found {
                Some(s) => s.index == locate(pieces@, offset as int) && s.index < pieces@.len()
                    && s == search_at(pieces@, s.index as int),
                None => locate(pieces@, offset as int) == pieces@.len(),
            },
    {
        let mut cursor: u64 = 0;
        let mut i: usize = 0;
        proof {
            lemma_empty(Buffers { original: Seq::empty(), added: Seq::empty() });
            assert(pieces@.take(0) =~= Seq::<Piece>::empty());
        }
        while i < pieces.len()
            invariant
                i <= pieces.len(),
                cursor == start_of(pieces@, i as int),
                cursor <= offset,
                locate_from(pieces@, i as int, offset as int) == locate(pieces@, offset as int),
            decreases pieces.len() - i,
        {
            let p = pieces[i];
            proof {
                lemma_end_of(pieces@, i as int);
                lemma_locate_step(pieces@, i as int, offset as int);
            }
            if p.length as u64 >= offset as u64 - cursor {
                return Some(PieceSearch { piece: p, index: i, piece_start: cursor });
            }
            cursor = cursor + p.length as u64;
            i = i + 1;
        }
        proof {
            lemma_locate_step(pieces@, i as int, offset as int);
        }
        None
    }

    /// The pieces that the range of `length` bytes from `offset` touches: from
    /// the first piece whose end is at or past `offset` through the first whose
    /// end is at or past `offset + length`, or through the last piece where the
    /// range runs past the end of the document.
    pub fn find_pieces_in_range(pieces: &Vec<Piece>, offset: u32, length: u32) -> (searches: Vec<
        PieceSearch,
    >)
        ensures
            searches@.len() == matched_count(pieces@, offset as int, length as int),
            forall|k: int|
                0 <= k < searches@.len() ==> #[trigger] searches@[k] == search_at(
                    pieces@,
                    locate(pieces@, offset as int) + k,
                ),
    {
        let end: u64 = offset as u64 + length as u64;
        let mut cursor: u64 = 0;
        let mut searches: Vec<PieceSearch> = Vec::new();
        let mut i: usize = 0;
        let ghost ps = pieces@;
        let ghost first = locate(ps, offset as int);
        proof {
            lemma_empty(Buffers { original: Seq::empty(), added: Seq::empty() });
            assert(ps.take(0) =~= Seq::<Piece>::empty());
            lemma_locate_from(ps, 0, offset as int);
        }
        while i < pieces.len()
            invariant
                ps == pieces@,
                first == locate(ps, offset as int),
                end == offset + length,
                i <= ps.len(),
                cursor == start_of(ps, i as int),
                cursor <= end,
                locate_from(ps, i as int, end as int) == locate(ps, end as int),
                0 <= first <= ps.len(),
                searches@.len() == 0 ==> locate_from(ps, i as int, offset as int) == first,
                searches@.len() > 0 ==> first + searches@.len() == i && cursor >= offset,
                forall|k: int|
                    0 <= k < searches@.len() ==> #[trigger] searches@[k] == search_at(ps, first + k),
            decreases ps.len() - i,
        {
            let p = pieces[i];
            proof {
                lemma_end_of(ps, i as int);
                lemma_locate_step(ps, i as int, offset as int);
                lemma_locate_step(ps, i as int, end as int);
            }
            if cursor >= offset as u64 || p.length as u64 >= offset as u64 - cursor {
                searches.push(PieceSearch { piece: p, index: i, piece_start: cursor });
                if p.length as u64 >= end - cursor {
                    return searches;
                }
            }
            cursor = cursor + p.length as u64;
            i = i + 1;
        }
        proof {
            lemma_locate_step(ps, i as int, offset as int);
            lemma_locate_step(ps, i as int, end as int);
        }
        searches
    }

    /// Inserts `content` at document offset `offset`. An offset past the end
    /// of the document is rejected and nothing changes. Otherwise the located
    /// piece is split around the insertion point, and a new piece over the
    /// bytes just appended to the added buffer stands between its halves.
    pub fn insert(&mut self, content: &str, offset: u32) -> (ok: bool)
        ensures
            ok == (offset <= old(self)@.len()),
            ok ==> final(self)@ == spliced(old(self)@, offset as int, content.spec_bytes()),
            ok ==> final(self).added() == old(self).added() + content.spec_bytes(),
            ok ==> final(self).piece_list() == with_insert(
                old(self).piece_list(),
                offset as int,
                (Piece {
                    source: Source::Added,
                    offset: old(self).added().len() as usize,
                    length: content.spec_bytes().len() as usize,
                }),
            ),
            ok ==> old(self).piece_list().len() <= final(self).piece_list().len() <= old(
                self,
            ).piece_list().len() + 2,
            ok && none_empty(old(self).piece_list()) ==> final(self).piece_list().len() > old(
                self,
            ).piece_list().len(),
            ok && none_empty(old(self).piece_list()) && content.spec_bytes().len() > 0
                ==> none_empty(final(self).piece_list()),
            !ok ==> *final(self) == *old(self),
            final(self).original() == old(self).original(),
            performs(
                *old(self),
                (Edit::Insert { content: content.spec_bytes(), offset: offset as int }),
                *final(self),
            ),
            final(self).well_formed(),
    {
        proof {
            use_type_invariant(&*self);
            lemma_document_len(self.pieces@, self.buffers());
            lemma_extends(self.added(), content.spec_bytes());
        }
        if !Self::is_offset_valid(&self.pieces, offset) {
            return false;
        }
        let search_opt = Self::find_piece_at_offset(&self.pieces, offset);
        let ghost before = self.buffers();
        let ghost ps = self.pieces@;
        let mut pieces: Vec<Piece> = Vec::new();
        let mut add_buffer = String::new();
        core::mem::swap(&mut pieces, &mut self.pieces);
        core::mem::swap(&mut add_buffer, &mut self.add_buffer);
        let fresh = Piece {
            source: Source::Added,
            offset: add_buffer.as_str().as_bytes().len(),
            length: content.as_bytes().len(),
        };
        proof {
            lemma_encode_concat(add_buffer@, content@);
        }
        add_buffer.append(content);
        // The grown buffer has a `usize` length, so the new piece ends within one.
        let grown = add_buffer.as_str().as_bytes().len();
        assert(fresh.offset + fresh.length == grown);
        self.add_buffer = add_buffer;
        match search_opt {
            Some(search) => {
                // Split the located piece in two around the insertion point.
                let ghost i = search.index as int;
                proof {
                    lemma_locate(ps, offset as int);
                    lemma_end_of(ps, i);
                    assert(in_bounds(ps[i], before));
                }
                let piece_one_len = (offset as u64 - search.piece_start) as usize;
                let piece_two_len = search.piece.length - piece_one_len;
                let p_one = Piece {
                    source: search.piece.source,
                    offset: search.piece.offset,
                    length: piece_one_len,
                };
                let p_two = Piece {
                    source: search.piece.source,
                    offset: search.piece.offset + piece_one_len,
                    length: piece_two_len,
                };
                assert(p_one == front(ps[i], piece_one_len as int));
                assert(p_two == back(ps[i], piece_one_len as int));
                let mut idx = search.index;
                pieces.remove(search.index);
                assert(pieces@ =~= ps.take(i) + ps.skip(i + 1));
                idx = Self::insert_remnant(&mut pieces, idx, p_one);
                assert(pieces@ =~= ps.take(i) + kept(p_one) + ps.skip(i + 1));
                pieces.insert(idx, fresh);
                assert(idx < pieces.len());
                idx = idx + 1;
                assert(pieces@ =~= ps.take(i) + kept(p_one) + seq![fresh] + ps.skip(i + 1));
                Self::insert_remnant(&mut pieces, idx, p_two);
                assert(pieces@ =~= (ps.take(i) + kept(p_one)) + seq![fresh] + (kept(p_two)
                    + ps.skip(i + 1)));
            },
            None => {
                proof {
                    if ps.len() > 0 {
                        lemma_locate(ps, offset as int);
                    }
                }
                pieces.insert(0, fresh);
                assert(pieces@ =~= seq![fresh]);
            },
        }
        proof {
            lemma_insert_appended(ps, offset as int, content.spec_bytes(), before, self.buffers());
        }
        self.pieces = pieces;
        true
    }

    /// Deletes the `length` bytes from document offset `offset`. A range that
    /// does not lie within the document is rejected, as is any range on a
    /// table without pieces, and nothing changes. Otherwise the touched pieces
    /// leave the list; what the first holds before the range and what the last
    /// holds after it come back in their place.
    pub fn delete(&mut self, offset: u32, length: u32) -> (ok: bool)
        ensures
            ok == (old(self).piece_list().len() > 0 && offset + length <= old(self)@.len()),
            ok ==> final(self)@ == excised(old(self)@, offset as int, length as int),
            ok ==> final(self).piece_list() == with_delete(
                old(self).piece_list(),
                offset as int,
                length as int,
            ),
            ok ==> final(self).piece_list().len() + matched_count(
                old(self).piece_list(),
                offset as int,
                length as int,
            ) <= old(self).piece_list().len() + 2,
            ok && none_empty(old(self).piece_list()) ==> none_empty(final(self).piece_list()),
            !ok ==> *final(self) == *old(self),
            final(self).original() == old(self).original(),
            final(self).added() == old(self).added(),
            performs(
                *old(self),
                (Edit::Delete { offset: offset as int, length: length as int }),
                *final(self),
            ),
            final(self).well_formed(),
    {
        proof {
            use_type_invariant(&*self);
            lemma_document_len(self.pieces@, self.buffers());
            lemma_extends(self.added(), Seq::empty());
            assert(excised(self@, 0, 0) =~= self@);
        }
        if !Self::is_offset_valid(&self.pieces, offset) {
            return false;
        }
        let searches = Self::find_pieces_in_range(&self.pieces, offset, length);
        let matched = searches.len();
        let ghost ps = self.pieces@;
        proof {
            if ps.len() > 0 {
                lemma_locate(ps, offset as int);
                lemma_locate(ps, offset + length);
                lemma_locate_monotone(ps, offset as int, offset + length);
                assert(ps.take(ps.len() as int) =~= ps);
            } else {
                lemma_locate_from(ps, 0, offset as int);
                lemma_empty(self.buffers());
                assert(ps =~= Seq::<Piece>::empty());
            }
        }
        if matched == 0 {
            return false;
        }
        let first = searches[0];
        let last = searches[matched - 1];
        let end: u64 = offset as u64 + length as u64;
        let ghost f = locate(ps, offset as int);
        let ghost l = f + matched - 1;
        proof {
            assert(ps.len() == self.pieces.len());
            assert(first == search_at(ps, f));
            assert(last == search_at(ps, l));
            assert(first.index == f && last.index == l);
            lemma_end_of(ps, f);
            lemma_end_of(ps, l);
            assert(in_bounds(ps[f], self.buffers()));
            assert(in_bounds(ps[l], self.buffers()));
        }
        if (last.piece.length as u64) < end - last.piece_start {
            // The range runs past the end of the document.
            return false;
        }
        assert(l == locate(ps, offset + length));
        let piece_one_len = (offset as u64 - first.piece_start) as usize;
        let rest = (end - last.piece_start) as usize;
        let piece_two_len = last.piece.length - rest;
        let p_one = Piece {
            source: first.piece.source,
            offset: first.piece.offset,
            length: piece_one_len,
        };
        let p_two = Piece {
            source: last.piece.source,
            offset: last.piece.offset + rest,
            length: piece_two_len,
        };
        assert(p_one == front(ps[f], piece_one_len as int));
        assert(p_two == back(ps[l], rest as int));
        let mut pieces: Vec<Piece> = Vec::new();
        core::mem::swap(&mut pieces, &mut self.pieces);
        Self::replace_run(&mut pieces, first.index, matched, p_one, p_two);
        assert(pieces@ =~= (ps.take(f) + kept(p_one)) + (kept(p_two) + ps.skip(l + 1)));
        proof {
            lemma_with_delete(ps, offset as int, length as int, self.buffers());
        }
        self.pieces = pieces;
        true
    }

    /// Takes the `count` pieces from `from` out of the list and puts `left`
    /// and `right` in their place, each unless it is empty.
    fn replace_run(pieces: &mut Vec<Piece>, from: usize, count: usize, left: Piece, right: Piece)
        requires
            from + count <= old(pieces)@.len(),
        ensures
            final(pieces)@ == old(pieces)@.take(from as int) + kept(left) + kept(right) + old(
                pieces,
            )@.skip(from + count),
    {
        let ghost ps = pieces@;
        let mut removed: usize = 0;
        assert(pieces@ =~= ps.take(from as int) + ps.skip(from as int));
        while removed < count
            invariant
                removed <= count,
                from + count <= ps.len(),
                pieces@ == ps.take(from as int) + ps.skip(from + removed),
            decreases count - removed,
        {
            pieces.remove(from);
            removed = removed + 1;
            assert(pieces@ =~= ps.take(from as int) + ps.skip(from + removed));
        }
        let idx = Self::insert_remnant(pieces, from, left);
        assert(pieces@ =~= ps.take(from as int) + kept(left) + ps.skip(from + count));
        Self::insert_remnant(pieces, idx, right);
        assert(pieces@ =~= ps.take(from as int) + kept(left) + kept(right) + ps.skip(
            from + count,
        ));
    }

    /// Puts `remnant` into the list at `index` unless it is empty: a split
    /// never stores an empty half. Returns the index just past it.
    fn insert_remnant(pieces: &mut Vec<Piece>, index: usize, remnant: Piece) -> (next: usize)
        requires
            index <= old(pieces)@.len(),
        ensures
            final(pieces)@ == old(pieces)@.take(index as int) + kept(remnant) + old(pieces)@.skip(
                index as int,
            ),
            next == index + kept(remnant).len(),
    {
        if remnant.length > 0 {
            pieces.insert(index, remnant);
            assert(index < pieces.len());
            assert(pieces@ =~= old(pieces)@.take(index as int) + kept(remnant) + old(
                pieces,
            )@.skip(index as int));
            index + 1
        } else {
            assert(pieces@ =~= old(pieces)@.take(index as int) + kept(remnant) + old(
                pieces,
            )@.skip(index as int));
            index
        }
    }

    /// The document as text. Where its bytes are well-formed UTF-8 the text
    /// encodes to exactly those bytes; where an edit has cut a multi-byte
    /// character apart, each malformed part reads as U+FFFD.
    pub fn read(&self) -> (text: String)
        ensures
            text@ == lossy_text(self@),
            valid_utf8(self@) ==> encode_utf8(text@) == self@,
    {
        proof {
            use_type_invariant(self);
        }
        let original = self.ro_buffer.as_str().as_bytes();
        let added = self.add_buffer.as_str().as_bytes();
        let mut bytes: Vec<u8> = Vec::new();
        let mut i: usize = 0;
        proof {
            lemma_empty(self.buffers());
            assert(self.pieces@.take(0) =~= Seq::<Piece>::empty());
        }
        while i < self.pieces.len()
            invariant
                i <= self.pieces@.len(),
                original@ == self.original(),
                added@ == self.added(),
                self.well_formed(),
                bytes@ == document(self.pieces@.take(i as int), self.buffers()),
            decreases self.pieces@.len() - i,
        {
            let p = self.pieces[i];
            let buffer = match p.source {
                Source::Added => added,
                Source::Original => original,
            };
            assert(in_bounds(self.pieces@[i as int], self.buffers()));
            let part = slice_subrange(buffer, p.offset, p.offset + p.length);
            let ghost sofar = bytes@;
            bytes.extend_from_slice(part);
            proof {
                assert(self.pieces@.take(i + 1) =~= self.pieces@.take(i as int).push(p));
                lemma_push(self.pieces@.take(i as int), p, self.buffers());
                assert(bytes@ =~= sofar + piece_bytes(p, self.buffers()));
            }
            i = i + 1;
        }
        proof {
            assert(self.pieces@.take(self.pieces@.len() as int) =~= self.pieces@);
        }
        decode_lossy(&bytes)
    }

    /// The pieces, in document order.
    pub fn pieces(&self) -> (pieces: &Vec<Piece>)
        ensures
            pieces@ == self.piece_list(),
    {
        &self.pieces
    }

    /// Whether `offset` is a position of this document: at most its length.
    pub fn has_offset(&self, offset: u32) -> (valid: bool)
        ensures
            valid == (offset <= self@.len()),
    {
        proof {
            use_type_invariant(self);
            lemma_document_len(self.pieces@, self.buffers());
        }
        Self::is_offset_valid(&self.pieces, offset)
    }

    /// The length of the added buffer, in bytes.
    pub fn added_len(&self) -> (n: usize)
        ensures
            n == self.added().len(),
    {
        self.add_buffer.as_str().as_bytes().len()
    }
}

} // verus!
