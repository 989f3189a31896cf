//! What a list of pieces denotes: the document's bytes, and how cutting the
//! list at a document offset changes them.
use crate::piece_table::{Piece, Source};
use vstd::prelude::*;

verus! {

/// The contents of the two backing buffers, as bytes.
pub struct Buffers {
    pub original: Seq<u8>,
    pub added: Seq<u8>,
}

/// The buffer that `p` reads from.
pub open spec fn buffer_of(p: Piece, bufs: Buffers) -> Seq<u8> {
    match p.source {
        Source::Original => bufs.original,
        Source::Added => bufs.added,
    }
}

/// `p` ends at or before the end of its buffer, and its end is a `usize`.
pub open spec fn in_bounds(p: Piece, bufs: Buffers) -> bool {
    p.offset + p.length <= buffer_of(p, bufs).len() && p.offset + p.length <= usize::MAX
}

/// No piece of `ps` is empty.
pub open spec fn none_empty(ps: Seq<Piece>) -> bool {
    forall|i: int| 0 <= i < ps.len() ==> (#[trigger] ps[i]).length > 0
}

/// Every piece of `ps` lies within its buffer.
pub open spec fn all_in_bounds(ps: Seq<Piece>, bufs: Buffers) -> bool {
    forall|i: int| 0 <= i < ps.len() ==> in_bounds(#[trigger] ps[i], bufs)
}

/// The bytes that `p` covers.
pub open spec fn piece_bytes(p: Piece, bufs: Buffers) -> Seq<u8> {
    buffer_of(p, bufs).subrange(p.offset as int, p.offset + p.length)
}

/// The sum of the lengths of `ps`.
#[verifier::opaque]
pub open spec fn total_length(ps: Seq<Piece>) -> nat
    decreases ps.len(),
{
    if ps.len() == 0 {
        0
    } else {
        total_length(ps.drop_last()) + ps.last().length as nat
    }
}

/// The document: the bytes of each piece, in list order.
#[verifier::opaque]
pub open spec fn document(ps: Seq<Piece>, bufs: Buffers) -> Seq<u8>
    decreases ps.len(),
{
    if ps.len() == 0 {
        Seq::empty()
    } else {
        document(ps.drop_last(), bufs) + piece_bytes(ps.last(), bufs)
    }
}

/// The document offset at which piece `i` starts.
pub open spec fn start_of(ps: Seq<Piece>, i: int) -> nat {
    total_length(ps.take(i))
}

/// The document offset just past piece `i`.
pub open spec fn end_of(ps: Seq<Piece>, i: int) -> nat {
    total_length(ps.take(i + 1))
}

/// Walking from piece `i` rightwards, the index of the first piece whose end
/// is at or past document offset `x`; `ps.len()` where no piece reaches it.
#[verifier::opaque]
pub open spec fn locate_from(ps: Seq<Piece>, i: int, x: int) -> int
    decreases ps.len() - i,
{
    if i < 0 || i >= ps.len() {
        ps.len() as int
    } else if end_of(ps, i) >= x {
        i
    } else {
        locate_from(ps, i + 1, x)
    }
}

/// The index of the first piece whose end is at or past document offset `x`.
/// An offset on the boundary between two pieces belongs to the piece that
/// ends there.
pub open spec fn locate(ps: Seq<Piece>, x: int) -> int {
    locate_from(ps, 0, x)
}

/// The first `at` bytes of `p`.
pub open spec fn front(p: Piece, at: int) -> Piece {
    Piece { source: p.source, offset: p.offset, length: at as usize }
}

/// What is left of `p` after its first `at` bytes.
pub open spec fn back(p: Piece, at: int) -> Piece {
    Piece { source: p.source, offset: (p.offset + at) as usize, length: (p.length - at) as usize }
}

/// What a split stores of one half: the half itself, or nothing where it is
/// empty.
pub open spec fn kept(half: Piece) -> Seq<Piece> {
    if half.length > 0 {
        seq![half]
    } else {
        Seq::empty()
    }
}

/// The first `at` bytes of `p` as a piece list: one piece, or none where
/// `at` is 0.
pub open spec fn head(p: Piece, at: int) -> Seq<Piece> {
    kept(front(p, at))
}

/// What is left of `p` after its first `at` bytes as a piece list: one piece,
/// or none where `at` is the whole length.
pub open spec fn tail(p: Piece, at: int) -> Seq<Piece> {
    kept(back(p, at))
}

/// The pieces before a cut `at` bytes into piece `i`.
pub open spec fn before_cut(ps: Seq<Piece>, i: int, at: int) -> Seq<Piece> {
    ps.take(i) + head(ps[i], at)
}

/// The pieces after a cut `at` bytes into piece `i`.
pub open spec fn after_cut(ps: Seq<Piece>, i: int, at: int) -> Seq<Piece> {
    tail(ps[i], at) + ps.skip(i + 1)
}

/// The piece list after `fresh` is inserted at document offset `x`: the
/// located piece is split around the insertion point, empty halves are left
/// out, and `fresh` stands between them. An empty list becomes `[fresh]`.
pub open spec fn with_insert(ps: Seq<Piece>, x: int, fresh: Piece) -> Seq<Piece> {
    if ps.len() == 0 {
        seq![fresh]
    } else {
        let i = locate(ps, x);
        let at = x - start_of(ps, i);
        before_cut(ps, i, at) + seq![fresh] + after_cut(ps, i, at)
    }
}

/// The piece list after the `n` bytes from document offset `x` are deleted:
/// what the first touched piece holds before `x`, then what the last touched
/// piece holds from `x + n` on; the pieces between them are dropped.
pub open spec fn with_delete(ps: Seq<Piece>, x: int, n: int) -> Seq<Piece> {
    let first = locate(ps, x);
    let last = locate(ps, x + n);
    before_cut(ps, first, x - start_of(ps, first)) + after_cut(
        ps,
        last,
        x + n - start_of(ps, last),
    )
}

/// `doc` with `bytes` spliced in at offset `x`.
pub open spec fn spliced(doc: Seq<u8>, x: int, bytes: Seq<u8>) -> Seq<u8> {
    doc.subrange(0, x) + bytes + doc.subrange(x, doc.len() as int)
}

/// `doc` without the `n` bytes from offset `x`.
pub open spec fn excised(doc: Seq<u8>, x: int, n: int) -> Seq<u8> {
    doc.subrange(0, x) + doc.subrange(x + n, doc.len() as int)
}

/// `a` is an initial segment of `b`.
pub open spec fn extends(b: Seq<u8>, a: Seq<u8>) -> bool {
    a.len() <= b.len() && b.subrange(0, a.len() as int) == a
}

/// An empty list has no length and denotes the empty document.
pub proof fn lemma_empty(bufs: Buffers)
    ensures
        total_length(Seq::<Piece>::empty()) == 0,
        document(Seq::<Piece>::empty(), bufs) == Seq::<u8>::empty(),
{
    reveal(total_length);
    reveal(document);
}

/// A list followed by one more piece.
pub proof fn lemma_push(ps: Seq<Piece>, p: Piece, bufs: Buffers)
    ensures
        total_length(ps.push(p)) == total_length(ps) + p.length,
        document(ps.push(p), bufs) == document(ps, bufs) + piece_bytes(p, bufs),
{
    reveal(total_length);
    reveal(document);
    assert(ps.push(p).drop_last() =~= ps);
}

/// One step of the walk that `locate_from` makes.
pub proof fn lemma_locate_step(ps: Seq<Piece>, i: int, x: int)
    requires
        0 <= i,
    ensures
        locate_from(ps, i, x) == if i >= ps.len() {
            ps.len() as int
        } else if end_of(ps, i) >= x {
            i
        } else {
            locate_from(ps, i + 1, x)
        },
{
    reveal(locate_from);
}

/// A byte string with more bytes at its end extends the one without them.
pub proof fn lemma_extends(a: Seq<u8>, more: Seq<u8>)
    ensures
        extends(a + more, a),
        extends(a, a),
{
    assert((a + more).subrange(0, a.len() as int) =~= a);
    assert(a.subrange(0, a.len() as int) =~= a);
}

/// A list of one piece is as long as the piece.
pub proof fn lemma_total_length_one(p: Piece)
    ensures
        total_length(seq![p]) == p.length,
{
    lemma_empty(Buffers { original: Seq::empty(), added: Seq::empty() });
    lemma_push(Seq::empty(), p, Buffers { original: Seq::empty(), added: Seq::empty() });
    assert(Seq::<Piece>::empty().push(p) =~= seq![p]);
}

/// A list of one piece denotes the bytes of the piece.
pub proof fn lemma_document_one(p: Piece, bufs: Buffers)
    ensures
        document(seq![p], bufs) == piece_bytes(p, bufs),
{
    lemma_empty(bufs);
    lemma_push(Seq::empty(), p, bufs);
    assert(Seq::<Piece>::empty().push(p) =~= seq![p]);
    assert(Seq::<u8>::empty() + piece_bytes(p, bufs) =~= piece_bytes(p, bufs));
}

/// Two lists, one after the other, are as long as both together.
pub proof fn lemma_total_length_concat(a: Seq<Piece>, b: Seq<Piece>)
    ensures
        total_length(a + b) == total_length(a) + total_length(b),
    decreases b.len(),
{
    let none = Buffers { original: Seq::empty(), added: Seq::empty() };
    if b.len() == 0 {
        lemma_empty(none);
        assert(b =~= Seq::<Piece>::empty());
        assert(a + b =~= a);
    } else {
        assert(a + b =~= (a + b.drop_last()).push(b.last()));
        assert(b =~= b.drop_last().push(b.last()));
        lemma_push(a + b.drop_last(), b.last(), none);
        lemma_push(b.drop_last(), b.last(), none);
        lemma_total_length_concat(a, b.drop_last());
    }
}

/// Two lists, one after the other, denote the two documents one after the
/// other.
pub proof fn lemma_document_concat(a: Seq<Piece>, b: Seq<Piece>, bufs: Buffers)
    ensures
        document(a + b, bufs) == document(a, bufs) + document(b, bufs),
    decreases b.len(),
{
    if b.len() == 0 {
        lemma_empty(bufs);
        assert(b =~= Seq::<Piece>::empty());
        assert(a + b =~= a);
        assert(document(a, bufs) + document(b, bufs) =~= document(a, bufs));
    } else {
        assert(a + b =~= (a + b.drop_last()).push(b.last()));
        assert(b =~= b.drop_last().push(b.last()));
        lemma_push(a + b.drop_last(), b.last(), bufs);
        lemma_push(b.drop_last(), b.last(), bufs);
        lemma_document_concat(a, b.drop_last(), bufs);
        assert(document(a + b, bufs) =~= document(a, bufs) + document(b, bufs));
    }
}

/// Two lists, one after the other, lie within the buffers exactly when each
/// does.
pub proof fn lemma_all_in_bounds_concat(a: Seq<Piece>, b: Seq<Piece>, bufs: Buffers)
    ensures
        all_in_bounds(a + b, bufs) <==> all_in_bounds(a, bufs) && all_in_bounds(b, bufs),
{
    if all_in_bounds(a + b, bufs) {
        assert forall|i: int| 0 <= i < a.len() implies in_bounds(#[trigger] a[i], bufs) by {
            assert(a[i] == (a + b)[i]);
        }
        assert forall|i: int| 0 <= i < b.len() implies in_bounds(#[trigger] b[i], bufs) by {
            assert(b[i] == (a + b)[a.len() + i]);
        }
    }
}

/// The document is as long as its pieces together.
pub proof fn lemma_document_len(ps: Seq<Piece>, bufs: Buffers)
    requires
        all_in_bounds(ps, bufs),
    ensures
        document(ps, bufs).len() == total_length(ps),
    decreases ps.len(),
{
    if ps.len() > 0 {
        assert(in_bounds(ps[ps.len() - 1], bufs));
        assert(ps =~= ps.drop_last().push(ps.last()));
        lemma_push(ps.drop_last(), ps.last(), bufs);
        lemma_document_len(ps.drop_last(), bufs);
    } else {
        lemma_empty(bufs);
        assert(ps =~= Seq::<Piece>::empty());
    }
}

/// Piece starts and ends grow along the list.
pub proof fn lemma_ends_monotone(ps: Seq<Piece>, i: int, j: int)
    requires
        0 <= i <= j <= ps.len(),
    ensures
        total_length(ps.take(i)) <= total_length(ps.take(j)) <= total_length(ps),
{
    assert(ps.take(j) =~= ps.take(i) + ps.subrange(i, j));
    lemma_total_length_concat(ps.take(i), ps.subrange(i, j));
    assert(ps =~= ps.take(j) + ps.skip(j));
    lemma_total_length_concat(ps.take(j), ps.skip(j));
}

/// A piece ends where it starts plus its length.
pub proof fn lemma_end_of(ps: Seq<Piece>, i: int)
    requires
        0 <= i < ps.len(),
    ensures
        end_of(ps, i) == start_of(ps, i) + ps[i].length,
{
    assert(ps.take(i + 1) =~= ps.take(i).push(ps[i]));
    lemma_push(ps.take(i), ps[i], Buffers { original: Seq::empty(), added: Seq::empty() });
}

/// What `locate_from` finds: the first piece from `i` on whose end reaches `x`.
pub proof fn lemma_locate_from(ps: Seq<Piece>, i: int, x: int)
    requires
        0 <= i <= ps.len(),
    ensures
        i <= locate_from(ps, i, x) <= ps.len(),
        locate_from(ps, i, x) < ps.len() ==> end_of(ps, locate_from(ps, i, x)) >= x,
        forall|j: int| i <= j < locate_from(ps, i, x) ==> #[trigger] end_of(ps, j) < x,
    decreases ps.len() - i,
{
    lemma_locate_step(ps, i, x);
    if i < ps.len() && end_of(ps, i) < x {
        lemma_locate_from(ps, i + 1, x);
    }
}

/// Some piece reaches `x` exactly when `x` is within the document, and the
/// piece found starts at or before `x`.
pub proof fn lemma_locate(ps: Seq<Piece>, x: int)
    requires
        ps.len() > 0,
        0 <= x,
    ensures
        0 <= locate(ps, x) <= ps.len(),
        locate(ps, x) < ps.len() <==> x <= total_length(ps),
        locate(ps, x) < ps.len() ==> start_of(ps, locate(ps, x)) <= x <= end_of(
            ps,
            locate(ps, x),
        ),
        locate(ps, x) < ps.len() ==> x - start_of(ps, locate(ps, x)) <= ps[locate(
            ps,
            x,
        )].length,
        forall|j: int| 0 <= j < locate(ps, x) ==> #[trigger] end_of(ps, j) < x,
{
    let k = locate(ps, x);
    lemma_locate_from(ps, 0, x);
    if k < ps.len() {
        lemma_ends_monotone(ps, k + 1, ps.len() as int);
        lemma_end_of(ps, k);
        if k > 0 {
            assert(end_of(ps, k - 1) < x);
        } else {
            assert(ps.take(0) =~= Seq::<Piece>::empty());
            lemma_empty(Buffers { original: Seq::empty(), added: Seq::empty() });
        }
    } else {
        assert(end_of(ps, ps.len() - 1) < x);
        assert(ps.take(ps.len() as int) =~= ps);
    }
}

/// Locating is monotone in the offset.
pub proof fn lemma_locate_monotone(ps: Seq<Piece>, x: int, y: int)
    requires
        ps.len() > 0,
        0 <= x <= y,
    ensures
        locate(ps, x) <= locate(ps, y),
{
    lemma_locate_from(ps, 0, x);
    lemma_locate_from(ps, 0, y);
    let kx = locate(ps, x);
    let ky = locate(ps, y);
    if ky < kx {
        assert(end_of(ps, ky) < x);
    }
}

/// The two halves of a piece cover its bytes, in order, and stay in bounds.
pub proof fn lemma_halves(p: Piece, at: int, bufs: Buffers)
    requires
        in_bounds(p, bufs),
        0 <= at <= p.length,
    ensures
        all_in_bounds(head(p, at), bufs),
        all_in_bounds(tail(p, at), bufs),
        total_length(head(p, at)) == at,
        total_length(tail(p, at)) == p.length - at,
        document(head(p, at), bufs) == piece_bytes(p, bufs).subrange(0, at),
        document(tail(p, at), bufs) == piece_bytes(p, bufs).subrange(at, p.length as int),
{
    lemma_empty(bufs);
    if at > 0 {
        let h = head(p, at)[0];
        lemma_total_length_one(h);
        lemma_document_one(h, bufs);
        assert(piece_bytes(h, bufs) =~= piece_bytes(p, bufs).subrange(0, at));
    } else {
        assert(piece_bytes(p, bufs).subrange(0, at) =~= Seq::<u8>::empty());
    }
    if at < p.length {
        let t = tail(p, at)[0];
        lemma_total_length_one(t);
        lemma_document_one(t, bufs);
        assert(piece_bytes(t, bufs) =~= piece_bytes(p, bufs).subrange(at, p.length as int));
    } else {
        assert(piece_bytes(p, bufs).subrange(at, p.length as int) =~= Seq::<u8>::empty());
    }
}

/// Cutting the list `at` bytes into piece `i` cuts the document at
/// `start_of(ps, i) + at`.
pub proof fn lemma_cut(ps: Seq<Piece>, i: int, at: int, bufs: Buffers)
    requires
        all_in_bounds(ps, bufs),
        0 <= i < ps.len(),
        0 <= at <= ps[i].length,
    ensures
        all_in_bounds(before_cut(ps, i, at), bufs),
        all_in_bounds(after_cut(ps, i, at), bufs),
        total_length(before_cut(ps, i, at)) == start_of(ps, i) + at,
        total_length(after_cut(ps, i, at)) == total_length(ps) - start_of(ps, i) - at,
        start_of(ps, i) + at <= total_length(ps),
        document(before_cut(ps, i, at), bufs) == document(ps, bufs).subrange(
            0,
            start_of(ps, i) + at,
        ),
        document(after_cut(ps, i, at), bufs) == document(ps, bufs).subrange(
            start_of(ps, i) + at,
            total_length(ps) as int,
        ),
{
    let p = ps[i];
    let pre = ps.take(i);
    let post = ps.skip(i + 1);
    let doc = document(ps, bufs);
    assert(ps =~= pre + seq![p] + post);
    lemma_all_in_bounds_concat(pre + seq![p], post, bufs);
    lemma_all_in_bounds_concat(pre, seq![p], bufs);
    lemma_halves(p, at, bufs);
    lemma_all_in_bounds_concat(pre, head(p, at), bufs);
    lemma_all_in_bounds_concat(tail(p, at), post, bufs);
    lemma_total_length_concat(pre, head(p, at));
    lemma_total_length_concat(tail(p, at), post);
    lemma_total_length_concat(pre + seq![p], post);
    lemma_total_length_concat(pre, seq![p]);
    lemma_total_length_one(p);
    lemma_document_concat(pre, head(p, at), bufs);
    lemma_document_concat(tail(p, at), post, bufs);
    lemma_document_concat(pre + seq![p], post, bufs);
    lemma_document_concat(pre, seq![p], bufs);
    lemma_document_one(p, bufs);
    lemma_document_len(pre, bufs);
    lemma_document_len(post, bufs);
    lemma_document_len(ps, bufs);
    assert(piece_bytes(p, bufs).len() == p.length);
    assert(doc =~= document(pre, bufs) + piece_bytes(p, bufs) + document(post, bufs));
    assert(document(before_cut(ps, i, at), bufs) =~= doc.subrange(0, start_of(ps, i) + at));
    assert(document(after_cut(ps, i, at), bufs) =~= doc.subrange(
        start_of(ps, i) + at,
        total_length(ps) as int,
    ));
}

/// The pieces tile the document: the first starts at offset 0, each starts
/// where the one before it ends, the last ends where the document ends, and
/// piece `i` holds exactly the document's bytes between its start and its end.
pub proof fn lemma_pieces_tile_document(ps: Seq<Piece>, i: int, bufs: Buffers)
    requires
        all_in_bounds(ps, bufs),
        0 <= i < ps.len(),
    ensures
        start_of(ps, 0) == 0,
        end_of(ps, i) == start_of(ps, i) + ps[i].length,
        i + 1 < ps.len() ==> start_of(ps, i + 1) == end_of(ps, i),
        end_of(ps, i) <= document(ps, bufs).len(),
        end_of(ps, ps.len() - 1) == document(ps, bufs).len(),
        document(ps, bufs).subrange(start_of(ps, i) as int, end_of(ps, i) as int) == piece_bytes(
            ps[i],
            bufs,
        ),
{
    let p = ps[i];
    let doc = document(ps, bufs);
    lemma_empty(bufs);
    assert(ps.take(0) =~= Seq::<Piece>::empty());
    assert(ps.take(ps.len() as int) =~= ps);
    lemma_end_of(ps, i);
    lemma_ends_monotone(ps, i + 1, ps.len() as int);
    lemma_document_len(ps, bufs);
    lemma_cut(ps, i, 0, bufs);
    lemma_cut(ps, i, p.length as int, bufs);
    lemma_halves(p, p.length as int, bufs);
    lemma_document_concat(ps.take(i), head(p, p.length as int), bufs);
    lemma_document_len(before_cut(ps, i, 0), bufs);
    assert(doc.subrange(0, end_of(ps, i) as int).subrange(
        start_of(ps, i) as int,
        end_of(ps, i) as int,
    ) =~= doc.subrange(start_of(ps, i) as int, end_of(ps, i) as int));
    assert(piece_bytes(p, bufs).subrange(0, p.length as int) =~= piece_bytes(p, bufs));
}

/// Pieces that lie within the buffers read the same bytes after the added
/// buffer has grown at its end.
pub proof fn lemma_growth_keeps_pieces(ps: Seq<Piece>, before: Buffers, after: Buffers)
    requires
        all_in_bounds(ps, before),
        after.original == before.original,
        extends(after.added, before.added),
    ensures
        all_in_bounds(ps, after),
        document(ps, after) == document(ps, before),
    decreases ps.len(),
{
    if ps.len() == 0 {
        lemma_empty(before);
        lemma_empty(after);
        assert(ps =~= Seq::<Piece>::empty());
    } else {
        let p = ps.last();
        assert(ps =~= ps.drop_last().push(p));
        lemma_push(ps.drop_last(), p, before);
        lemma_push(ps.drop_last(), p, after);
        assert(in_bounds(ps[ps.len() - 1], before));
        assert(all_in_bounds(ps.drop_last(), before)) by {
            assert forall|i: int| 0 <= i < ps.drop_last().len() implies in_bounds(
                #[trigger] ps.drop_last()[i],
                before,
            ) by {
                assert(ps.drop_last()[i] == ps[i]);
            }
        }
        lemma_growth_keeps_pieces(ps.drop_last(), before, after);
        assert(piece_bytes(p, after) =~= piece_bytes(p, before)) by {
            assert forall|k: int| 0 <= k < p.length implies piece_bytes(p, after)[k]
                == piece_bytes(p, before)[k] by {
                if p.source == Source::Added {
                    assert(after.added.subrange(0, before.added.len() as int)[p.offset + k]
                        == before.added[p.offset + k]);
                }
            }
        }
        assert forall|i: int| 0 <= i < ps.len() implies in_bounds(#[trigger] ps[i], after) by {
            assert(in_bounds(ps[i], before));
        }
    }
}

/// Inserting a piece at document offset `x` splices its bytes into the
/// document at `x`.
pub proof fn lemma_with_insert(ps: Seq<Piece>, x: int, fresh: Piece, bufs: Buffers)
    requires
        all_in_bounds(ps, bufs),
        in_bounds(fresh, bufs),
        0 <= x <= total_length(ps),
    ensures
        all_in_bounds(with_insert(ps, x, fresh), bufs),
        document(with_insert(ps, x, fresh), bufs) == spliced(
            document(ps, bufs),
            x,
            piece_bytes(fresh, bufs),
        ),
        ps.len() <= with_insert(ps, x, fresh).len() <= ps.len() + 2,
        none_empty(ps) ==> ps.len() < with_insert(ps, x, fresh).len(),
        none_empty(ps) && fresh.length > 0 ==> none_empty(with_insert(ps, x, fresh)),
{
    let doc = document(ps, bufs);
    lemma_document_one(fresh, bufs);
    lemma_document_len(ps, bufs);
    if ps.len() == 0 {
        lemma_empty(bufs);
        assert(ps =~= Seq::<Piece>::empty());
        assert(doc.subrange(0, x) + piece_bytes(fresh, bufs) + doc.subrange(x, doc.len() as int)
            =~= piece_bytes(fresh, bufs));
    } else {
        lemma_locate(ps, x);
        let i = locate(ps, x);
        let at = x - start_of(ps, i);
        lemma_cut(ps, i, at, bufs);
        let b = before_cut(ps, i, at);
        let a = after_cut(ps, i, at);
        lemma_all_in_bounds_concat(b, seq![fresh], bufs);
        lemma_all_in_bounds_concat(b + seq![fresh], a, bufs);
        lemma_document_concat(b, seq![fresh], bufs);
        lemma_document_concat(b + seq![fresh], a, bufs);
    }
}

/// Deleting `n` bytes at document offset `x` removes exactly those bytes
/// from the document.
pub proof fn lemma_with_delete(ps: Seq<Piece>, x: int, n: int, bufs: Buffers)
    requires
        all_in_bounds(ps, bufs),
        ps.len() > 0,
        0 <= x,
        0 <= n,
        x + n <= total_length(ps),
    ensures
        all_in_bounds(with_delete(ps, x, n), bufs),
        document(with_delete(ps, x, n), bufs) == excised(document(ps, bufs), x, n),
        locate(ps, x) <= locate(ps, x + n) < ps.len(),
        with_delete(ps, x, n).len() + (locate(ps, x + n) - locate(ps, x) + 1) <= ps.len() + 2,
        with_delete(ps, x, n).len() + (locate(ps, x + n) - locate(ps, x) + 1) >= ps.len(),
        none_empty(ps) ==> none_empty(with_delete(ps, x, n)),
{
    lemma_document_len(ps, bufs);
    lemma_locate(ps, x);
    lemma_locate(ps, x + n);
    lemma_locate_monotone(ps, x, x + n);
    let f = locate(ps, x);
    let l = locate(ps, x + n);
    lemma_cut(ps, f, x - start_of(ps, f), bufs);
    lemma_cut(ps, l, x + n - start_of(ps, l), bufs);
    let b = before_cut(ps, f, x - start_of(ps, f));
    let a = after_cut(ps, l, x + n - start_of(ps, l));
    lemma_all_in_bounds_concat(b, a, bufs);
    lemma_document_concat(b, a, bufs);
}

/// Appending `bytes` to the added buffer and inserting a piece over them at
/// document offset `x` splices `bytes` into the document at `x`.
pub proof fn lemma_insert_appended(
    ps: Seq<Piece>,
    x: int,
    bytes: Seq<u8>,
    before: Buffers,
    after: Buffers,
)
    requires
        all_in_bounds(ps, before),
        after.original == before.original,
        after.added == before.added + bytes,
        after.added.len() <= usize::MAX,
        0 <= x <= total_length(ps),
    ensures
        ({
            let fresh = Piece {
                source: Source::Added,
                offset: before.added.len() as usize,
                length: bytes.len() as usize,
            };
            &&& all_in_bounds(with_insert(ps, x, fresh), after)
            &&& document(with_insert(ps, x, fresh), after) == spliced(
                document(ps, before),
                x,
                bytes,
            )
            &&& ps.len() <= with_insert(ps, x, fresh).len() <= ps.len() + 2
            &&& none_empty(ps) ==> ps.len() < with_insert(ps, x, fresh).len()
            &&& none_empty(ps) && bytes.len() > 0 ==> none_empty(with_insert(ps, x, fresh))
        }),
{
    let fresh = Piece {
        source: Source::Added,
        offset: before.added.len() as usize,
        length: bytes.len() as usize,
    };
    assert(after.added.subrange(0, before.added.len() as int) =~= before.added);
    lemma_growth_keeps_pieces(ps, before, after);
    assert(piece_bytes(fresh, after) =~= bytes);
    lemma_with_insert(ps, x, fresh, after);
}

/// An insertion leaves every piece but the one it splits as it was: the
/// pieces before that one keep their place, the pieces after it move right by
/// as much as the list grew.
pub proof fn lemma_insert_keeps_other_pieces(ps: Seq<Piece>, x: int, fresh: Piece, j: int)
    requires
        0 <= x <= total_length(ps),
        0 <= j < ps.len(),
        j != locate(ps, x),
    ensures
        j < locate(ps, x) ==> with_insert(ps, x, fresh)[j] == ps[j],
        j > locate(ps, x) ==> with_insert(ps, x, fresh)[j + with_insert(ps, x, fresh).len()
            - ps.len()] == ps[j],
{
    lemma_locate(ps, x);
}

/// A deletion leaves every piece that its range does not touch as it was: the
/// pieces before the first touched one keep their place, the pieces after the
/// last touched one move left by as much as the list shrank.
pub proof fn lemma_delete_keeps_other_pieces(ps: Seq<Piece>, x: int, n: int, j: int)
    requires
        0 <= x,
        0 <= n,
        x + n <= total_length(ps),
        0 <= j < ps.len(),
        j < locate(ps, x) || j > locate(ps, x + n),
    ensures
        j < locate(ps, x) ==> with_delete(ps, x, n)[j] == ps[j],
        j > locate(ps, x + n) ==> with_delete(ps, x, n)[j + with_delete(ps, x, n).len()
            - ps.len()] == ps[j],
{
    lemma_locate(ps, x);
    lemma_locate(ps, x + n);
    lemma_locate_monotone(ps, x, x + n);
}

} // verus!
