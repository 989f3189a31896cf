//! Bytes and text: what the UTF-8 encoding does to concatenation, and the
//! decoding of a document's bytes into a `String`.
use crate::document::{excised, spliced};
use vstd::prelude::*;
use vstd::utf8::*;

verus! {

/// The text that a lossy UTF-8 decoding of `bytes` gives: each malformed part
/// stands as U+FFFD.
pub uninterp spec fn lossy_text(bytes: Seq<u8>) -> Seq<char>;

/// Decodes `bytes` with `String::from_utf8_lossy`. The result is a function of
/// the bytes alone, named `lossy_text`; std documents that well-formed UTF-8
/// comes back as the very same bytes, which the second clause states.
#[verifier::external_body]
pub(crate) fn decode_lossy(bytes: &Vec<u8>) -> (text: String)
    ensures
        text@ == lossy_text(bytes@),
        valid_utf8(bytes@) ==> encode_utf8(text@) == bytes@,
{
    String::from_utf8_lossy(bytes.as_slice()).into_owned()
}

/// Encoding distributes over concatenation.
pub proof fn lemma_encode_concat(a: Seq<char>, b: Seq<char>)
    ensures
        encode_utf8(a + b) == encode_utf8(a) + encode_utf8(b),
    decreases a.len(),
{
    if a.len() == 0 {
        assert(a + b =~= b);
        assert(encode_utf8(a) + encode_utf8(b) =~= encode_utf8(b));
    } else {
        assert((a + b).drop_first() =~= a.drop_first() + b);
        lemma_encode_concat(a.drop_first(), b);
        assert(encode_utf8(a + b) =~= encode_utf8(a) + encode_utf8(b));
    }
}

/// Where one well-formed byte string ends and the next begins is a character
/// boundary of the two together.
pub proof fn lemma_boundary_between(a: Seq<u8>, b: Seq<u8>)
    requires
        valid_utf8(a),
        valid_utf8(b),
    ensures
        valid_utf8(a + b),
        is_char_boundary(a + b, a.len() as int),
    decreases a.len(),
{
    valid_utf8_concat(a, b);
    if a.len() > 0 {
        let rest = pop_first_scalar(a);
        assert(pop_first_scalar(a + b) =~= rest + b);
        lemma_boundary_between(rest, b);
    }
}

/// Decoding distributes over the concatenation of well-formed byte strings.
pub proof fn lemma_decode_concat(a: Seq<u8>, b: Seq<u8>)
    requires
        valid_utf8(a),
        valid_utf8(b),
    ensures
        valid_utf8(a + b),
        decode_utf8(a + b) == decode_utf8(a) + decode_utf8(b),
{
    lemma_boundary_between(a, b);
    decode_utf8_split(a + b, a.len() as int);
    assert((a + b).subrange(0, a.len() as int) =~= a);
    assert((a + b).subrange(a.len() as int, (a + b).len() as int) =~= b);
}

/// Splicing the encoding of `content` into a well-formed document at a
/// character boundary gives a well-formed document whose text is the old text
/// with `content` put in at that boundary.
pub proof fn lemma_insert_as_text(doc: Seq<u8>, at: int, content: Seq<char>)
    requires
        valid_utf8(doc),
        is_char_boundary(doc, at),
        0 <= at <= doc.len(),
    ensures
        valid_utf8(spliced(doc, at, encode_utf8(content))),
        decode_utf8(spliced(doc, at, encode_utf8(content))) == decode_utf8(doc.subrange(0, at))
            + content + decode_utf8(doc.subrange(at, doc.len() as int)),
        decode_utf8(doc) == decode_utf8(doc.subrange(0, at)) + decode_utf8(
            doc.subrange(at, doc.len() as int),
        ),
{
    let left = doc.subrange(0, at);
    let right = doc.subrange(at, doc.len() as int);
    let mid = encode_utf8(content);
    valid_utf8_split(doc, at);
    decode_utf8_split(doc, at);
    encode_utf8_valid_utf8(content);
    encode_utf8_decode_utf8(content);
    lemma_decode_concat(left, mid);
    lemma_decode_concat(left + mid, right);
}

/// Cutting a range that starts and ends at character boundaries out of a
/// well-formed document gives a well-formed document whose text is the old
/// text without the characters of that range.
pub proof fn lemma_delete_as_text(doc: Seq<u8>, at: int, n: int)
    requires
        valid_utf8(doc),
        0 <= at,
        0 <= n,
        at + n <= doc.len(),
        is_char_boundary(doc, at),
        is_char_boundary(doc, at + n),
    ensures
        valid_utf8(excised(doc, at, n)),
        decode_utf8(excised(doc, at, n)) == decode_utf8(doc.subrange(0, at)) + decode_utf8(
            doc.subrange(at + n, doc.len() as int),
        ),
        decode_utf8(doc) == decode_utf8(doc.subrange(0, at)) + decode_utf8(
            doc.subrange(at, at + n),
        ) + decode_utf8(doc.subrange(at + n, doc.len() as int)),
{
    let left = doc.subrange(0, at);
    let upto = doc.subrange(0, at + n);
    let right = doc.subrange(at + n, doc.len() as int);
    valid_utf8_split(doc, at);
    valid_utf8_split(doc, at + n);
    decode_utf8_split(doc, at + n);
    lemma_boundary_inside(upto, doc, at);
    decode_utf8_split(upto, at);
    assert(upto.subrange(0, at) =~= left);
    assert(upto.subrange(at, upto.len() as int) =~= doc.subrange(at, at + n));
    lemma_decode_concat(left, right);
}

/// A character boundary of a document is one of each well-formed prefix that
/// reaches it.
pub proof fn lemma_boundary_inside(prefix: Seq<u8>, doc: Seq<u8>, at: int)
    requires
        valid_utf8(doc),
        valid_utf8(prefix),
        0 <= at <= prefix.len() <= doc.len(),
        prefix == doc.subrange(0, prefix.len() as int),
        is_char_boundary(doc, at),
    ensures
        is_char_boundary(prefix, at),
    decreases doc.len(),
{
    if at != 0 {
        reveal_with_fuel(is_char_boundary, 2);
        let w = length_of_first_scalar(doc);
        assert(prefix.len() > 0);
        assert(length_of_first_scalar(prefix) == w);
        assert(w <= at);
        assert(pop_first_scalar(prefix) =~= pop_first_scalar(doc).subrange(
            0,
            prefix.len() - w,
        ));
        lemma_boundary_inside(pop_first_scalar(prefix), pop_first_scalar(doc), at - w);
    }
}

/// How many bytes a text-input event carries.
pub const TEXT_INPUT_LEN: usize = 32;

/// The payload of a text-input event for `s`: one byte for each of its first
/// 32 characters, the low eight bits of the character as a signed byte, and
/// zeros after them.
pub fn text_input_bytes(s: &str) -> (bytes: [i8; 32])
    ensures
        forall|i: int|
            0 <= i < 32 ==> #[trigger] bytes@[i] == if i < s@.len() {
                s@[i] as u32 as i8
            } else {
                0i8
            },
{
    let mut v: [i8; 32] = [0;32];
    let mut i: usize = 0;
    for c in it: s.chars()
        invariant
            it.seq() == s@,
            i == if it.index() < 32 {
                it.index()
            } else {
                32
            },
            forall|k: int|
                0 <= k < 32 ==> #[trigger] v@[k] == if k < i {
                    s@[k] as u32 as i8
                } else {
                    0i8
                },
    {
        if i < TEXT_INPUT_LEN {
            assert(c == s@[i as int]);
            v[i] = #[verifier::truncate]
            ((c as u32) as i8);
            i = i + 1;
        }
    }
    v
}

} // verus!
