//! Edit scripts: what a run of edits makes of a plain byte string, and the
//! proof that a piece table put through the same edits holds the same bytes.
use crate::document::{
    all_in_bounds, excised, extends, in_bounds, lemma_document_one, lemma_growth_keeps_pieces,
    piece_bytes, spliced,
};
use crate::piece_table::{Piece, PieceTable};
use vstd::prelude::*;

verus! {

/// One edit of a document, over bytes.
pub enum Edit {
    /// Put `content` at the end.
    Append { content: Seq<u8> },
    /// Put `content` at `offset`.
    Insert { content: Seq<u8>, offset: int },
    /// Take out `length` bytes from `offset`.
    Delete { offset: int, length: int },
}

/// What `e` makes of the plain byte string `doc`. An edit that does not lie
/// within `doc` leaves it as it is.
pub open spec fn apply(doc: Seq<u8>, e: Edit) -> Seq<u8> {
    match e {
        Edit::Append { content } => doc + content,
        Edit::Insert { content, offset } => if 0 <= offset <= doc.len() {
            spliced(doc, offset, content)
        } else {
            doc
        },
        Edit::Delete { offset, length } => if 0 <= offset && 0 <= length && offset + length
            <= doc.len() {
            excised(doc, offset, length)
        } else {
            doc
        },
    }
}

/// What the edits of `script`, in order, make of `doc`.
pub open spec fn replay(doc: Seq<u8>, script: Seq<Edit>) -> Seq<u8>
    decreases script.len(),
{
    if script.len() == 0 {
        doc
    } else {
        apply(replay(doc, script.drop_last()), script.last())
    }
}

/// `post` is what the table `pre` becomes by the call that `e` stands for:
/// `append`, `insert` or `delete`. The document changes as a plain byte string
/// would, the original buffer stays, and the added buffer only grows at its
/// end.
pub open spec fn performs(pre: PieceTable, e: Edit, post: PieceTable) -> bool {
    &&& post@ == apply(pre@, e)
    &&& post.original() == pre.original()
    &&& extends(post.added(), pre.added())
}

/// A table put through a script of edits, call by call, holds what the same
/// script makes of a plain byte string; its original buffer is the one it
/// started with, and its added buffer starts with what it held at first.
pub proof fn lemma_replay(tables: Seq<PieceTable>, script: Seq<Edit>)
    requires
        tables.len() == script.len() + 1,
        forall|i: int|
            0 <= i < script.len() ==> performs(#[trigger] tables[i], script[i], tables[i + 1]),
    ensures
        tables.last()@ == replay(tables[0]@, script),
        tables.last().original() == tables[0].original(),
        extends(tables.last().added(), tables[0].added()),
    decreases script.len(),
{
    if script.len() == 0 {
        assert(tables.last().added().subrange(0, tables[0].added().len() as int)
            =~= tables[0].added());
    } else {
        let n = script.len() as int;
        let earlier = tables.drop_last();
        assert forall|i: int| 0 <= i < n - 1 implies performs(
            #[trigger] earlier[i],
            script.drop_last()[i],
            earlier[i + 1],
        ) by {
            assert(performs(tables[i], script[i], tables[i + 1]));
        }
        lemma_replay(earlier, script.drop_last());
        assert(performs(tables[n - 1], script[n - 1], tables[n]));
        lemma_extends_transitive(tables[n].added(), tables[n - 1].added(), tables[0].added());
    }
}

/// Growing at the end twice is growing at the end.
pub proof fn lemma_extends_transitive(c: Seq<u8>, b: Seq<u8>, a: Seq<u8>)
    requires
        extends(c, b),
        extends(b, a),
    ensures
        extends(c, a),
{
    assert forall|k: int| 0 <= k < a.len() implies c.subrange(0, a.len() as int)[k] == a[k] by {
        assert(b.subrange(0, a.len() as int)[k] == a[k]);
        assert(c.subrange(0, b.len() as int)[k] == b[k]);
    }
    assert(c.subrange(0, a.len() as int) =~= a);
}

/// A piece that lies within the buffers of a table still lies within them,
/// and reads the same bytes, after any script of edits.
pub proof fn lemma_pieces_outlive_edits(tables: Seq<PieceTable>, script: Seq<Edit>, p: Piece)
    requires
        tables.len() == script.len() + 1,
        forall|i: int|
            0 <= i < script.len() ==> performs(#[trigger] tables[i], script[i], tables[i + 1]),
        in_bounds(p, tables[0].buffers()),
    ensures
        in_bounds(p, tables.last().buffers()),
        piece_bytes(p, tables.last().buffers()) == piece_bytes(p, tables[0].buffers()),
{
    lemma_replay(tables, script);
    let before = tables[0].buffers();
    let after = tables.last().buffers();
    assert(all_in_bounds(seq![p], before));
    lemma_growth_keeps_pieces(seq![p], before, after);
    assert(in_bounds(seq![p][0], after));
    lemma_document_one(p, before);
    lemma_document_one(p, after);
}

} // verus!
