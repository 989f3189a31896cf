//! Lines of a text: newline counts over characters and over bytes, and the
//! byte offsets at which lines start.
use vstd::prelude::*;
use vstd::utf8::*;

verus! {

/// The newline, as a byte of UTF-8.
pub const NEWLINE: u8 = 0x0a;

/// How often `x` occurs in `s`.
#[verifier::opaque]
pub open spec fn occurrences<T>(s: Seq<T>, x: T) -> nat
    decreases s.len(),
{
    if s.len() == 0 {
        0
    } else {
        (if s[0] == x {
            1nat
        } else {
            0nat
        }) + occurrences(s.drop_first(), x)
    }
}

/// The number of newline characters in `s`.
pub open spec fn newline_count(s: Seq<char>) -> nat {
    occurrences(s, '\n')
}

/// The number of newline bytes in `bytes`.
pub open spec fn break_count(bytes: Seq<u8>) -> nat {
    occurrences(bytes, NEWLINE)
}

/// The line that character `index` of `s` stands on, counted from 0: the
/// number of newlines among the characters before it. An index past the end
/// stands on the last line.
pub open spec fn line_number_at(s: Seq<char>, index: int) -> nat {
    newline_count(s.take(if index < s.len() { index } else { s.len() as int }))
}

/// The offset just past the first newline byte at or after `from`, or the
/// length of `bytes` where there is none.
#[verifier::opaque]
pub open spec fn line_end_from(bytes: Seq<u8>, from: int) -> int
    decreases bytes.len() - from,
{
    if from < 0 || from >= bytes.len() {
        bytes.len() as int
    } else if bytes[from] == NEWLINE {
        from + 1
    } else {
        line_end_from(bytes, from + 1)
    }
}

/// The byte offset at which line `k` starts, where lines end just past each
/// newline byte: the offset just past the `k`-th newline, or the length of
/// `bytes` where it has fewer.
#[verifier::opaque]
pub open spec fn line_start(bytes: Seq<u8>, k: nat) -> int
    decreases k,
{
    if k == 0 {
        0
    } else {
        line_end_from(bytes, line_start(bytes, (k - 1) as nat))
    }
}

/// `bytes` has a line `k`: the line starts before the end.
pub open spec fn has_line(bytes: Seq<u8>, k: nat) -> bool {
    line_start(bytes, k) < bytes.len()
}

/// The length in bytes of line `k`, its newline included.
pub open spec fn line_length(bytes: Seq<u8>, k: nat) -> int {
    line_start(bytes, k + 1) - line_start(bytes, k)
}

pub proof fn lemma_occurrences_empty<T>(x: T)
    ensures
        occurrences(Seq::<T>::empty(), x) == 0,
{
    reveal(occurrences);
}

pub proof fn lemma_occurrences_one<T>(y: T, x: T)
    ensures
        occurrences(seq![y], x) == if y == x {
            1nat
        } else {
            0nat
        },
{
    reveal_with_fuel(occurrences, 2);
    assert(seq![y].drop_first() =~= Seq::<T>::empty());
}

pub proof fn lemma_occurrences_concat<T>(a: Seq<T>, b: Seq<T>, x: T)
    ensures
        occurrences(a + b, x) == occurrences(a, x) + occurrences(b, x),
    decreases a.len(),
{
    reveal(occurrences);
    if a.len() == 0 {
        assert(a + b =~= b);
    } else {
        assert((a + b).drop_first() =~= a.drop_first() + b);
        lemma_occurrences_concat(a.drop_first(), b, x);
    }
}

/// A prefix holds no more occurrences than the whole.
pub proof fn lemma_occurrences_prefix<T>(s: Seq<T>, n: int, x: T)
    requires
        0 <= n <= s.len(),
    ensures
        occurrences(s.take(n), x) <= occurrences(s, x),
        occurrences(s.take(n), x) <= n,
    decreases n,
{
    assert(s =~= s.take(n) + s.skip(n));
    lemma_occurrences_concat(s.take(n), s.skip(n), x);
    if n == 0 {
        assert(s.take(0) =~= Seq::<T>::empty());
        lemma_occurrences_empty(x);
    } else {
        lemma_occurrences_prefix(s, n - 1, x);
        lemma_occurrences_step(s, n - 1, x);
    }
}

/// Taking one more element counts it if it is `x`.
pub proof fn lemma_occurrences_step<T>(s: Seq<T>, n: int, x: T)
    requires
        0 <= n < s.len(),
    ensures
        occurrences(s.take(n + 1), x) == occurrences(s.take(n), x) + if s[n] == x {
            1nat
        } else {
            0nat
        },
{
    assert(s.take(n + 1) =~= s.take(n) + seq![s[n]]);
    lemma_occurrences_concat(s.take(n), seq![s[n]], x);
    lemma_occurrences_one(s[n], x);
}

/// The encoding of a character holds a newline byte exactly when the
/// character is the newline, and then once.
pub proof fn lemma_breaks_of_char(c: char)
    ensures
        break_count(encode_scalar(c as u32)) == if c == '\n' {
            1nat
        } else {
            0nat
        },
{
    let v = c as u32;
    char_is_scalar(c);
    let b = encode_scalar(v);
    assert(v <= 0x7f && v != 0x0a ==> ((v & 0x7F) as u8) != 0x0a) by (bit_vector);
    assert(v == 0x0a ==> ((v & 0x7F) as u8) == 0x0a) by (bit_vector);
    assert(forall|x: u8| (0x80u8 | x) != 0x0a) by (bit_vector);
    assert(forall|x: u8| (0xC0u8 | x) != 0x0a) by (bit_vector);
    assert(forall|x: u8| (0xE0u8 | x) != 0x0a) by (bit_vector);
    assert(forall|x: u8| (0xF0u8 | x) != 0x0a) by (bit_vector);
    assert(c == '\n' <==> v == 0x0a);
    lemma_occurrences_empty(NEWLINE);
    if has_width_1_encoding(v) {
        lemma_occurrences_one(b[0], NEWLINE);
        assert(b =~= seq![b[0]]);
    } else if has_width_2_encoding(v) {
        assert(b =~= seq![b[0]] + seq![b[1]]);
        lemma_occurrences_concat(seq![b[0]], seq![b[1]], NEWLINE);
        lemma_occurrences_one(b[0], NEWLINE);
        lemma_occurrences_one(b[1], NEWLINE);
    } else if has_width_3_encoding(v) {
        assert(b =~= seq![b[0]] + seq![b[1]] + seq![b[2]]);
        lemma_occurrences_concat(seq![b[0]] + seq![b[1]], seq![b[2]], NEWLINE);
        lemma_occurrences_concat(seq![b[0]], seq![b[1]], NEWLINE);
        lemma_occurrences_one(b[0], NEWLINE);
        lemma_occurrences_one(b[1], NEWLINE);
        lemma_occurrences_one(b[2], NEWLINE);
    } else {
        assert(b =~= seq![b[0]] + seq![b[1]] + seq![b[2]] + seq![b[3]]);
        lemma_occurrences_concat(seq![b[0]] + seq![b[1]] + seq![b[2]], seq![b[3]], NEWLINE);
        lemma_occurrences_concat(seq![b[0]] + seq![b[1]], seq![b[2]], NEWLINE);
        lemma_occurrences_concat(seq![b[0]], seq![b[1]], NEWLINE);
        lemma_occurrences_one(b[0], NEWLINE);
        lemma_occurrences_one(b[1], NEWLINE);
        lemma_occurrences_one(b[2], NEWLINE);
        lemma_occurrences_one(b[3], NEWLINE);
    }
}

/// A text has as many newline characters as its encoding has newline bytes.
pub proof fn lemma_newlines_are_breaks(s: Seq<char>)
    ensures
        break_count(encode_utf8(s)) == newline_count(s),
    decreases s.len(),
{
    reveal(occurrences);
    if s.len() > 0 {
        lemma_newlines_are_breaks(s.drop_first());
        lemma_breaks_of_char(s[0]);
        lemma_occurrences_concat(
            encode_scalar(s[0] as u32),
            encode_utf8(s.drop_first()),
            NEWLINE,
        );
    }
}

/// One step of the walk that `line_end_from` makes.
pub proof fn lemma_line_end_step(bytes: Seq<u8>, from: int)
    requires
        0 <= from,
    ensures
        line_end_from(bytes, from) == if from >= bytes.len() {
            bytes.len() as int
        } else if bytes[from] == NEWLINE {
            from + 1
        } else {
            line_end_from(bytes, from + 1)
        },
{
    reveal(line_end_from);
}

/// How the start of a line follows from the start of the line before.
pub proof fn lemma_line_start_step(bytes: Seq<u8>, k: nat)
    ensures
        line_start(bytes, 0) == 0,
        line_start(bytes, k + 1) == line_end_from(bytes, line_start(bytes, k)),
{
    reveal_with_fuel(line_start, 2);
}

/// A line ends after its start, within the text, and takes exactly one
/// newline with it if any is left.
pub proof fn lemma_line_end(bytes: Seq<u8>, from: int)
    requires
        0 <= from <= bytes.len(),
    ensures
        from <= line_end_from(bytes, from) <= bytes.len(),
        from < bytes.len() ==> from < line_end_from(bytes, from),
        break_count(bytes.skip(from)) > 0 ==> break_count(
            bytes.skip(line_end_from(bytes, from)),
        ) == break_count(bytes.skip(from)) - 1,
        break_count(bytes.skip(from)) == 0 ==> line_end_from(bytes, from) == bytes.len(),
    decreases bytes.len() - from,
{
    lemma_line_end_step(bytes, from);
    if from < bytes.len() {
        assert(bytes.skip(from) =~= seq![bytes[from]] + bytes.skip(from + 1));
        lemma_occurrences_concat(seq![bytes[from]], bytes.skip(from + 1), NEWLINE);
        lemma_occurrences_one(bytes[from], NEWLINE);
        if bytes[from] != NEWLINE {
            lemma_line_end(bytes, from + 1);
        }
    } else {
        assert(bytes.skip(from) =~= Seq::<u8>::empty());
        lemma_occurrences_empty(NEWLINE);
    }
}

/// Every line starts within the text, at or after the line before it.
pub proof fn lemma_line_start_bounds(bytes: Seq<u8>, k: nat)
    ensures
        0 <= line_start(bytes, k) <= line_start(bytes, k + 1) <= bytes.len(),
        has_line(bytes, k) ==> line_start(bytes, k) < line_start(bytes, k + 1),
        !has_line(bytes, k) ==> line_start(bytes, k + 1) == bytes.len(),
    decreases k,
{
    lemma_line_start_step(bytes, k);
    if k > 0 {
        lemma_line_start_bounds(bytes, (k - 1) as nat);
    }
    lemma_line_end(bytes, line_start(bytes, k));
}

/// Line starts grow with the line number.
pub proof fn lemma_line_start_monotone(bytes: Seq<u8>, j: nat, k: nat)
    requires
        j <= k,
    ensures
        line_start(bytes, j) <= line_start(bytes, k),
        !has_line(bytes, j) ==> line_start(bytes, k) == bytes.len(),
        has_line(bytes, k) ==> has_line(bytes, j),
    decreases k - j,
{
    lemma_line_start_bounds(bytes, j);
    if j < k {
        lemma_line_start_monotone(bytes, j + 1, k);
    }
}

/// Where the text has at least `k` newlines, line `k` starts just past the
/// `k`-th of them, and each line before it is there.
pub proof fn lemma_line_start_of_break(bytes: Seq<u8>, k: nat)
    requires
        k <= break_count(bytes),
    ensures
        0 <= line_start(bytes, k) <= bytes.len(),
        break_count(bytes.skip(line_start(bytes, k))) == break_count(bytes) - k,
        k > 0 ==> has_line(bytes, (k - 1) as nat),
    decreases k,
{
    lemma_line_start_step(bytes, k);
    lemma_line_start_bounds(bytes, k);
    if k == 0 {
        assert(bytes.skip(0) =~= bytes);
    } else {
        let j = (k - 1) as nat;
        lemma_line_start_of_break(bytes, j);
        lemma_line_start_step(bytes, j);
        lemma_line_start_bounds(bytes, j);
        lemma_line_end(bytes, line_start(bytes, j));
        if line_start(bytes, j) == bytes.len() {
            assert(bytes.skip(bytes.len() as int) =~= Seq::<u8>::empty());
            lemma_occurrences_empty(NEWLINE);
        }
    }
}

/// A line that is there starts no earlier than its number: each line before
/// it holds a byte.
pub proof fn lemma_line_start_at_least(bytes: Seq<u8>, k: nat)
    requires
        has_line(bytes, k),
    ensures
        k <= line_start(bytes, k),
    decreases k,
{
    lemma_line_start_step(bytes, k);
    if k > 0 {
        lemma_line_start_monotone(bytes, (k - 1) as nat, k);
        lemma_line_start_at_least(bytes, (k - 1) as nat);
        lemma_line_start_bounds(bytes, (k - 1) as nat);
    }
}

/// A line that starts at or before a newline ends at or before it.
pub proof fn lemma_line_end_before(bytes: Seq<u8>, from: int, at: int)
    requires
        0 <= from <= at < bytes.len(),
        bytes[at] == NEWLINE,
    ensures
        line_end_from(bytes, from) <= at + 1,
    decreases at - from,
{
    lemma_line_end_step(bytes, from);
    if from < at && bytes[from] != NEWLINE {
        lemma_line_end_before(bytes, from + 1, at);
    }
}

/// The line numbered by the newlines among the first `n` bytes starts within
/// those bytes.
pub proof fn lemma_line_start_in_prefix(bytes: Seq<u8>, n: int)
    requires
        0 <= n <= bytes.len(),
    ensures
        0 <= line_start(bytes, break_count(bytes.take(n))) <= n,
    decreases n,
{
    lemma_line_start_step(bytes, 0);
    if n == 0 {
        assert(bytes.take(0) =~= Seq::<u8>::empty());
        lemma_occurrences_empty(NEWLINE);
    } else {
        lemma_line_start_in_prefix(bytes, n - 1);
        lemma_occurrences_step(bytes, n - 1, NEWLINE);
        let before = break_count(bytes.take(n - 1));
        if bytes[n - 1] == NEWLINE {
            lemma_line_start_step(bytes, before);
            lemma_line_end_before(bytes, line_start(bytes, before), n - 1);
            lemma_line_start_bounds(bytes, before);
        }
    }
}

/// A line that is there has as many newlines before it as its number says.
pub proof fn lemma_breaks_before_line(bytes: Seq<u8>, k: nat)
    requires
        has_line(bytes, k),
    ensures
        k <= break_count(bytes),
        break_count(bytes.take(line_start(bytes, k))) == k,
{
    let total = break_count(bytes);
    if k > total {
        lemma_line_start_of_break(bytes, total);
        lemma_line_end(bytes, line_start(bytes, total));
        lemma_line_start_step(bytes, total);
        lemma_line_start_monotone(bytes, total + 1, k);
        lemma_line_start_bounds(bytes, total);
    }
    lemma_line_start_of_break(bytes, k);
    let at = line_start(bytes, k);
    assert(bytes =~= bytes.take(at) + bytes.skip(at));
    lemma_occurrences_concat(bytes.take(at), bytes.skip(at), NEWLINE);
}

/// `starts` holds the start of each line that `bytes` has, in order.
pub open spec fn are_line_starts(starts: Seq<usize>, bytes: Seq<u8>) -> bool {
    &&& forall|k: int|
        0 <= k < starts.len() ==> #[trigger] starts[k] == line_start(bytes, k as nat) && has_line(
            bytes,
            k as nat,
        )
    &&& !has_line(bytes, starts.len())
}

/// The starts of the lines of `bytes`, one for each line that the text has.
pub fn line_starts(bytes: &[u8]) -> (starts: Vec<usize>)
    ensures
        are_line_starts(starts@, bytes@),
{
    let mut starts: Vec<usize> = Vec::new();
    let len = bytes.len();
    let mut i: usize = 0;
    proof {
        lemma_line_start_step(bytes@, 0);
        lemma_line_end_step(bytes@, 0);
    }
    if len > 0 {
        starts.push(0);
    }
    while i < len
        invariant
            len == bytes@.len(),
            len > 0 ==> starts@.len() > 0,
            len == 0 ==> starts@.len() == 0,
            i <= len,
            forall|k: int|
                0 <= k < starts@.len() ==> #[trigger] starts@[k] == line_start(bytes@, k as nat)
                    && has_line(bytes@, k as nat),
            line_end_from(bytes@, i as int) == line_start(bytes@, starts@.len()),
        decreases len - i,
    {
        proof {
            lemma_line_end_step(bytes@, i as int);
            lemma_line_end_step(bytes@, i + 1);
            lemma_line_start_step(bytes@, starts@.len());
        }
        if bytes[i] == NEWLINE && i + 1 < len {
            starts.push(i + 1);
        }
        i = i + 1;
    }
    proof {
        lemma_line_end_step(bytes@, i as int);
    }
    starts
}

} // verus!
