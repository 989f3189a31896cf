//! The cursor: an index into the text, and how it moves between lines.
use crate::lines::{
    are_line_starts, has_line, lemma_line_start_at_least, lemma_line_start_bounds, lemma_line_start_monotone, lemma_line_start_of_break,
    lemma_breaks_before_line, lemma_line_start_in_prefix, lemma_newlines_are_breaks, lemma_occurrences_empty, lemma_occurrences_prefix,
    lemma_occurrences_step, line_length, line_number_at, line_start, line_starts, newline_count,
    NEWLINE,
};
use vstd::prelude::*;
use vstd::utf8::*;

verus! {

/// Where the next edit goes, and how the cursor is drawn.
#[derive(Debug)]
pub struct Cursor {
    pub index: u32,
    pub font_size: (u32, u32),
    pub cursor_line: bool,
}

/// The cursor's column: how many bytes lie between the start of `line` and
/// `index`.
pub open spec fn column(bytes: Seq<u8>, line: nat, index: int) -> int {
    index - line_start(bytes, line)
}

/// The cursor at `index` in `text` has a column: its line starts at or before
/// the index. Line numbers count characters and line starts count bytes, so in
/// a text with multi-byte characters before the cursor this can fail.
pub open spec fn has_column(text: Seq<char>, index: int) -> bool {
    line_start(encode_utf8(text), line_number_at(text, index)) <= index
}

/// How far back the index moves to go up one line: to the same column of the
/// line above, or just past that line's end where it is too short. `None` on
/// the first line.
pub open spec fn up_distance(text: Seq<char>, index: int) -> Option<int> {
    let bytes = encode_utf8(text);
    let line = line_number_at(text, index);
    if line == 0 {
        None
    } else {
        let above = line_length(bytes, (line - 1) as nat);
        let col = column(bytes, line, index);
        Some(
            if above <= col {
                col + 1
            } else {
                above
            },
        )
    }
}

/// How far forward the index moves to go down one line: to the same column of
/// the line below, or to that line's last byte where it is too short. `None`
/// where there is no line below.
pub open spec fn down_distance(text: Seq<char>, index: int) -> Option<int> {
    let bytes = encode_utf8(text);
    let line = line_number_at(text, index);
    if !has_line(bytes, line + 1) {
        None
    } else {
        let here = line_length(bytes, line);
        let below = line_length(bytes, line + 1);
        let col = column(bytes, line, index);
        Some(
            if col >= below {
                here - col + below - 1
            } else {
                here
            },
        )
    }
}

/// Going up from `index` is defined: on any line but the first the cursor has
/// a column.
pub open spec fn can_go_up(text: Seq<char>, index: int) -> bool {
    line_number_at(text, index) > 0 ==> has_column(text, index)
}

/// Going down from `index` is defined: the text is short enough for a `u32`
/// index, and where there is a line below, the cursor has a column, which lies
/// within its own line if the line below is too short for it.
pub open spec fn can_go_down(text: Seq<char>, index: int) -> bool {
    let bytes = encode_utf8(text);
    let line = line_number_at(text, index);
    &&& bytes.len() <= u32::MAX
    &&& has_line(bytes, line + 1) ==> {
        &&& has_column(text, index)
        &&& column(bytes, line, index) >= line_length(bytes, line + 1) ==> column(
            bytes,
            line,
            index,
        ) <= line_length(bytes, line)
    }
}

/// The cursor at `index` can be drawn with glyphs of `font_size`: it has a
/// column, and column and line times the glyph size fit a `u32`.
pub open spec fn can_be_placed(text: Seq<char>, index: int, font_size: (u32, u32)) -> bool {
    let line = line_number_at(text, index);
    &&& has_column(text, index)
    &&& column(encode_utf8(text), line, index) * font_size.0 <= u32::MAX
    &&& line * font_size.1 <= u32::MAX
}

/// A move by `lines_diff` lines is defined: one line down or one line up.
pub open spec fn can_move_by(text: Seq<char>, index: int, lines_diff: int) -> bool {
    ||| lines_diff == 1 && can_go_down(text, index)
    ||| lines_diff == -1 && can_go_up(text, index)
}

/// A line number is at most the number of newlines, so every line before it
/// is there and it starts within the text.
pub proof fn lemma_line_number(text: Seq<char>, index: int)
    requires
        0 <= index,
    ensures
        line_number_at(text, index) <= index,
        line_start(encode_utf8(text), line_number_at(text, index)) <= encode_utf8(text).len(),
        line_number_at(text, index) > 0 ==> has_line(
            encode_utf8(text),
            (line_number_at(text, index) - 1) as nat,
        ),
{
    let n = if index < text.len() {
        index
    } else {
        text.len() as int
    };
    lemma_occurrences_prefix(text, n, '\n');
    lemma_newlines_are_breaks(text);
    lemma_line_start_of_break(encode_utf8(text), line_number_at(text, index));
}

/// A defined move lands within the text: going up never passes the start,
/// going down never passes the end.
pub proof fn lemma_moves_stay_in_range(text: Seq<char>, index: int)
    requires
        0 <= index,
    ensures
        can_go_up(text, index) ==> match up_distance(text, index) {
            Some(d) => 0 < d <= index,
            None => true,
        },
        can_go_down(text, index) ==> match down_distance(text, index) {
            Some(d) => 0 <= d && index + d < encode_utf8(text).len(),
            None => true,
        },
{
    let bytes = encode_utf8(text);
    let line = line_number_at(text, index);
    lemma_line_number(text, index);
    lemma_line_start_bounds(bytes, line);
    lemma_line_start_bounds(bytes, line + 1);
    if line > 0 {
        lemma_line_start_bounds(bytes, (line - 1) as nat);
    }
}

/// In a text of one-byte characters every cursor has a column, and every move
/// between lines is defined as long as the text is short enough for a `u32`
/// index.
pub proof fn lemma_ascii_text_is_navigable(text: Seq<char>, index: int)
    requires
        is_ascii_chars(text),
        0 <= index,
    ensures
        has_column(text, index),
        can_go_up(text, index),
        encode_utf8(text).len() <= u32::MAX ==> can_go_down(text, index),
{
    let bytes = encode_utf8(text);
    let n = if index < text.len() {
        index
    } else {
        text.len() as int
    };
    let line = line_number_at(text, index);
    is_ascii_chars_encode_utf8(text);
    assert(is_ascii_chars(text.take(n)));
    is_ascii_chars_encode_utf8(text.take(n));
    assert(encode_utf8(text.take(n)) =~= bytes.take(n));
    lemma_newlines_are_breaks(text.take(n));
    lemma_line_start_in_prefix(bytes, n);
    if has_line(bytes, line + 1) {
        let below = line_start(bytes, line + 1);
        lemma_breaks_before_line(bytes, line + 1);
        lemma_line_start_bounds(bytes, line);
        if n >= below {
            lemma_occurrences_prefix(bytes.take(n), below, NEWLINE);
            assert(bytes.take(n).take(below) =~= bytes.take(below));
        }
    }
}

/// The start of line `k` of `bytes`, from the starts of the lines that are
/// there: a line past the last starts at the end.
fn start_of_line(starts: &Vec<usize>, bytes: &[u8], k: u32) -> (start: usize)
    requires
        are_line_starts(starts@, bytes@),
    ensures
        start == line_start(bytes@, k as nat),
        has_line(bytes@, k as nat) == (k < starts@.len()),
        has_line(bytes@, k as nat) ==> k <= start < bytes@.len(),
{
    proof {
        if k >= starts@.len() {
            lemma_line_start_monotone(bytes@, starts@.len(), k as nat);
            lemma_line_start_bounds(bytes@, k as nat);
        } else {
            assert(starts@[k as int] == line_start(bytes@, k as nat));
            lemma_line_start_at_least(bytes@, k as nat);
        }
    }
    if (k as usize) < starts.len() {
        starts[k as usize]
    } else {
        bytes.len()
    }
}

impl Clone for Cursor {
    fn clone(&self) -> (copy: Self)
        ensures
            copy == *self,
    {
        Cursor { index: self.index, font_size: self.font_size, cursor_line: self.cursor_line }
    }
}

impl Cursor {
    /// A cursor at the start of the text, for glyphs of `font_size`.
    pub fn new(font_size: (u32, u32)) -> (cursor: Self)
        ensures
            cursor.index == 0,
            cursor.font_size == font_size,
            !cursor.cursor_line,
    {
        Cursor { index: 0, font_size, cursor_line: false }
    }

    /// The line the cursor stands on, counted from 0: the number of newlines
    /// among the characters before the cursor's index.
    pub fn get_current_line_number(&self, content: &String) -> (line: u32)
        ensures
            line == line_number_at(content@, self.index as int),
    {
        let mut lines: u32 = 0;
        let mut i: usize = 0;
        proof {
            assert(content@.take(0) =~= Seq::<char>::empty());
            lemma_occurrences_empty('\n');
        }
        for c in it: content.as_str().chars()
            invariant
                it.seq() == content@,
                i == it.index(),
                i <= self.index,
                lines == newline_count(content@.take(i as int)),
                lines <= i,
        {
            proof {
                assert(c == content@[i as int]);
                lemma_occurrences_step(content@, i as int, '\n');
            }
            if i == self.index as usize {
                return lines;
            }
            if c == '\n' {
                lines = lines + 1;
            }
            i = i + 1;
        }
        proof {
            assert(content@.take(content@.len() as int) =~= content@);
        }
        lines
    }

    /// The cursor's column on line `current_line_number`: the bytes between
    /// the start of that line and the cursor.
    pub fn get_line_char_count_until_cursor(
        &self,
        content: &String,
        current_line_number: u32,
    ) -> (count: u32)
        requires
            line_start(encode_utf8(content@), current_line_number as nat) <= self.index,
        ensures
            count == column(encode_utf8(content@), current_line_number as nat, self.index as int),
    {
        let bytes = content.as_str().as_bytes();
        let starts = line_starts(bytes);
        let chars = start_of_line(&starts, bytes, current_line_number);
        self.index - chars as u32
    }

    /// Whether `calc_new_index` is defined for this move.
    pub fn can_move(cursor: &Cursor, content: &String, lines_diff: i32) -> (ok: bool)
        ensures
            ok == can_move_by(content@, cursor.index as int, lines_diff as int),
    {
        let bytes = content.as_str().as_bytes();
        let line = cursor.get_current_line_number(content);
        let starts = line_starts(bytes);
        let len = bytes.len();
        let start = start_of_line(&starts, bytes, line);
        proof {
            lemma_line_number(content@, cursor.index as int);
        }
        let has_col = start <= cursor.index as usize;
        if lines_diff == -1 {
            line == 0 || has_col
        } else if lines_diff == 1 {
            if len > u32::MAX as usize {
                return false;
            }
            proof {
                lemma_line_start_bounds(bytes@, line as nat);
                lemma_line_start_bounds(bytes@, (line + 1) as nat);
                if line + 1 < starts@.len() {
                    assert(starts@[line + 1] == line_start(bytes@, (line + 1) as nat));
                    lemma_line_start_at_least(bytes@, (line + 1) as nat);
                }
            }
            if line as u64 + 1 >= starts.len() as u64 {
                return true;
            }
            let next = start_of_line(&starts, bytes, line + 1);
            let after = start_of_line(&starts, bytes, line + 2);
            if !has_col {
                return false;
            }
            let col = cursor.index as usize - start;
            col < after - next || col <= next - start
        } else {
            false
        }
    }

    /// How far back the index moves to go up one line.
    fn move_up(cursor: &Cursor, content: &String) -> (distance: Option<u32>)
        requires
            can_go_up(content@, cursor.index as int),
        ensures
            match distance {
                Some(d) => up_distance(content@, cursor.index as int) == Some(d as int),
                None => up_distance(content@, cursor.index as int) is None,
            },
    {
        let current_line_number = cursor.get_current_line_number(content);
        let bytes = content.as_str().as_bytes();
        let lines = line_starts(bytes);

        if current_line_number == 0 {
            return None;
        }
        proof {
            lemma_line_number(content@, cursor.index as int);
            lemma_line_start_bounds(bytes@, (current_line_number - 1) as nat);
        }
        let previous_start = start_of_line(&lines, bytes, current_line_number - 1);
        let current_start = start_of_line(&lines, bytes, current_line_number);
        let previous_len = (current_start - previous_start) as u32;
        let line_char = cursor.get_line_char_count_until_cursor(content, current_line_number);
        let move_size = if previous_len == 1 {
            // The line above holds nothing but its newline.
            line_char + previous_len
        } else {
            if previous_len <= line_char {
                (line_char - previous_len) + previous_len + 1
            } else {
                previous_len
            }
        };
        Some(move_size)
    }

    /// How far forward the index moves to go down one line.
    fn move_down(cursor: &Cursor, content: &String) -> (distance: Option<u32>)
        requires
            can_go_down(content@, cursor.index as int),
        ensures
            match distance {
                Some(d) => down_distance(content@, cursor.index as int) == Some(d as int),
                None => down_distance(content@, cursor.index as int) is None,
            },
    {
        let current_line_number = cursor.get_current_line_number(content);
        let bytes = content.as_str().as_bytes();
        let lines = line_starts(bytes);
        let len = bytes.len();
        proof {
            lemma_line_number(content@, cursor.index as int);
            lemma_line_start_bounds(bytes@, current_line_number as nat);
            lemma_line_start_bounds(bytes@, (current_line_number + 1) as nat);
            lemma_line_start_bounds(bytes@, (current_line_number + 2) as nat);
        }
        if lines.len() as u64 <= current_line_number as u64 + 1 {
            proof {
                lemma_line_start_monotone(
                    bytes@,
                    lines@.len(),
                    (current_line_number + 1) as nat,
                );
            }
            return None;
        }
        proof {
            assert(lines@[current_line_number + 1] == line_start(
                bytes@,
                (current_line_number + 1) as nat,
            ));
            lemma_line_start_at_least(bytes@, (current_line_number + 1) as nat);
        }
        let start = start_of_line(&lines, bytes, current_line_number);
        let next_start = start_of_line(&lines, bytes, current_line_number + 1);
        let next_end = start_of_line(&lines, bytes, current_line_number + 2);
        let l_len = (next_start - start) as u32;
        let next_len = (next_end - next_start) as u32;
        let next_is_blank = next_len == 1 && bytes[next_start] == NEWLINE;
        let move_size = if next_is_blank {
            let line_chars_until_cursor = cursor.get_line_char_count_until_cursor(
                content,
                current_line_number,
            );
            l_len - line_chars_until_cursor
        } else {
            let line_char = cursor.get_line_char_count_until_cursor(content, current_line_number);
            if line_char >= next_len {
                let remaining_chars_len = l_len - line_char;
                remaining_chars_len + (next_len - 1)
            } else {
                l_len
            }
        };
        Some(move_size)
    }

    /// Whether `screen_position` is defined: the cursor has a column, and its
    /// cell lies at pixel offsets that fit a `u32`.
    pub fn has_screen_position(&self, content: &String) -> (ok: bool)
        ensures
            ok == can_be_placed(content@, self.index as int, self.font_size),
    {
        let bytes = content.as_str().as_bytes();
        let line = self.get_current_line_number(content);
        let starts = line_starts(bytes);
        let start = start_of_line(&starts, bytes, line);
        proof {
            lemma_line_number(content@, self.index as int);
        }
        if start > self.index as usize {
            return false;
        }
        let col = self.index - start as u32;
        col.checked_mul(self.font_size.0).is_some() && line.checked_mul(
            self.font_size.1,
        ).is_some()
    }

    /// The pixel at which the cursor's cell is drawn: its column and its line,
    /// each times the size of a glyph, as signed coordinates.
    pub fn screen_position(&self, content: &String) -> (at: (i32, i32))
        requires
            can_be_placed(content@, self.index as int, self.font_size),
        ensures
            at.0 == (column(
                encode_utf8(content@),
                line_number_at(content@, self.index as int),
                self.index as int,
            ) * self.font_size.0) as u32 as i32,
            at.1 == (line_number_at(content@, self.index as int) * self.font_size.1) as u32 as i32,
    {
        let current_line_number = self.get_current_line_number(content);
        let chars_on_line = self.get_line_char_count_until_cursor(content, current_line_number);
        let x = #[verifier::truncate]
        ((chars_on_line * self.font_size.0) as i32);
        let y = #[verifier::truncate]
        ((current_line_number * self.font_size.1) as i32);
        (x, y)
    }

    /// How far the index moves for a step of one line down (`lines_diff` 1) or
    /// up (`lines_diff` -1): forward for down, back for up. `None` where there
    /// is no such line.
    pub fn calc_new_index(cursor: &Cursor, content: &String, lines_diff: i32) -> (distance: Option<
        u32,
    >)
        requires
            can_move_by(content@, cursor.index as int, lines_diff as int),
        ensures
            match distance {
                Some(d) => Some(d as int) == if lines_diff > 0 {
                    down_distance(content@, cursor.index as int)
                } else {
                    up_distance(content@, cursor.index as int)
                },
                None => if lines_diff > 0 {
                    down_distance(content@, cursor.index as int) is None
                } else {
                    up_distance(content@, cursor.index as int) is None
                },
            },
    {
        if lines_diff > 0 {
            Self::move_down(cursor, content)
        } else {
            Self::move_up(cursor, content)
        }
    }
}

} // verus!
