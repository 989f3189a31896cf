//! Where things go on screen: glyph cells in the atlas, the glyphs of a text,
//! and the mode label.
use vstd::prelude::*;

verus! {

/// One glyph to draw: the character, and the pixel at the top left of its
/// cell.
#[derive(Debug, Clone, Copy, PartialEq, Eq, Structural)]
pub struct Placement {
    pub glyph: char,
    pub x: i32,
    pub y: i32,
}

/// Where the pen stands after `text` was laid out: the line, and the cell on
/// that line. A newline starts the next line; any other character takes one
/// cell.
pub open spec fn pen_after(text: Seq<char>) -> (nat, nat)
    decreases text.len(),
{
    if text.len() == 0 {
        (0, 0)
    } else {
        let (line, cell) = pen_after(text.drop_last());
        if text.last() == '\n' {
            (line + 1, 0)
        } else {
            (line, cell + 1)
        }
    }
}

/// A pixel offset of `cells` cells of `size` pixels each, as a signed
/// coordinate.
pub open spec fn offset_of(cells: nat, size: u32) -> i32 {
    (cells * size) as u32 as i32
}

/// Character `i` of `text` can be laid out from `(x, y)` with glyphs of
/// `font_size`: the pen's counters and the pixel offsets fit a `u32`, and the
/// glyph's coordinates an `i32`.
pub open spec fn fits_at(text: Seq<char>, i: int, font_size: (u32, u32), x: i32, y: i32) -> bool {
    let (line, cell) = pen_after(text.take(i));
    if text[i] == '\n' {
        line + 1 <= u32::MAX
    } else {
        &&& cell * font_size.0 <= u32::MAX
        &&& font_size.1 * line <= u32::MAX
        &&& i32::MIN <= x + offset_of(cell, font_size.0) <= i32::MAX
        &&& i32::MIN <= y + offset_of(line, font_size.1) <= i32::MAX
        &&& cell + 1 <= u32::MAX
    }
}

/// Every character of `text` can be laid out.
pub open spec fn fits(text: Seq<char>, font_size: (u32, u32), x: i32, y: i32) -> bool {
    forall|i: int| 0 <= i < text.len() ==> fits_at(text, i, font_size, x, y)
}

/// The glyphs of `text` laid out from `(x, y)`: one for each character but
/// the newlines, in order, each where the pen stands when its turn comes.
pub open spec fn placements(text: Seq<char>, font_size: (u32, u32), x: i32, y: i32) -> Seq<
    Placement,
>
    decreases text.len(),
{
    if text.len() == 0 {
        Seq::empty()
    } else {
        let before = text.drop_last();
        let (line, cell) = pen_after(before);
        let rest = placements(before, font_size, x, y);
        if text.last() == '\n' {
            rest
        } else {
            rest.push(
                Placement {
                    glyph: text.last(),
                    x: (x + offset_of(cell, font_size.0)) as i32,
                    y: (y + offset_of(line, font_size.1)) as i32,
                },
            )
        }
    }
}

/// Whether `layout_text` is defined for this text.
pub fn can_layout_text(text: &String, font_size: (u32, u32), x: i32, y: i32) -> (ok: bool)
    ensures
        ok == fits(text@, font_size, x, y),
{
    let mut line: u32 = 0;
    let mut carriage: u32 = 0;
    let ghost mut i: int = 0;
    proof {
        assert(text@.take(0) =~= Seq::<char>::empty());
    }
    for c in it: text.as_str().chars()
        invariant
            it.seq() == text@,
            i == it.index(),
            pen_after(text@.take(i)) == (line as nat, carriage as nat),
            forall|k: int| 0 <= k < i ==> fits_at(text@, k, font_size, x, y),
    {
        proof {
            assert(c == text@[i]);
            assert(text@.take(i + 1).drop_last() =~= text@.take(i));
        }
        if c == '\n' {
            if line == u32::MAX {
                assert(!fits_at(text@, i, font_size, x, y));
                return false;
            }
            line = line + 1;
            carriage = 0;
        } else {
            let fitting = match (carriage.checked_mul(font_size.0), font_size.1.checked_mul(line)) {
                (Some(dx), Some(dy)) => {
                    assert(dx == carriage * font_size.0 && dy == line * font_size.1) by (nonlinear_arith)
                        requires
                            dx == carriage * font_size.0,
                            dy == font_size.1 * line,
                    ;
                    let sx = x.checked_add(#[verifier::truncate] (dx as i32));
                    let sy = y.checked_add(#[verifier::truncate] (dy as i32));
                    sx.is_some() && sy.is_some() && carriage < u32::MAX
                },
                _ => {
                    assert(carriage * font_size.0 == font_size.0 * carriage) by (nonlinear_arith);
                    assert(line * font_size.1 == font_size.1 * line) by (nonlinear_arith);
                    false
                },
            };
            if !fitting {
                assert(!fits_at(text@, i, font_size, x, y));
                return false;
            }
            carriage = carriage + 1;
        }
        proof {
            i = i + 1;
        }
    }
    true
}

/// Lays `text` out from `(x, y)` in cells of `font_size`: each character but
/// the newlines gets the next cell of its line, and a newline starts the next
/// line at the left.
pub fn layout_text(text: &String, font_size: (u32, u32), x: i32, y: i32) -> (glyphs: Vec<
    Placement,
>)
    requires
        fits(text@, font_size, x, y),
    ensures
        glyphs@ == placements(text@, font_size, x, y),
{
    let mut glyphs: Vec<Placement> = Vec::new();
    let mut line: u32 = 0;
    let mut carriage: u32 = 0;
    let ghost mut i: int = 0;
    proof {
        assert(text@.take(0) =~= Seq::<char>::empty());
    }
    for c in it: text.as_str().chars()
        invariant
            it.seq() == text@,
            i == it.index(),
            fits(text@, font_size, x, y),
            pen_after(text@.take(i)) == (line as nat, carriage as nat),
            glyphs@ == placements(text@.take(i), font_size, x, y),
    {
        proof {
            assert(c == text@[i]);
            assert(text@.take(i + 1).drop_last() =~= text@.take(i));
            assert(fits_at(text@, i, font_size, x, y));
            assert(line * font_size.1 == font_size.1 * line) by (nonlinear_arith);
        }
        if c == '\n' {
            line = line + 1;
            carriage = 0;
        } else {
            let dst_x = x + #[verifier::truncate] ((carriage * font_size.0) as i32);
            let dst_y = y + #[verifier::truncate] ((font_size.1 * line) as i32);
            carriage = carriage + 1;
            glyphs.push(Placement { glyph: c, x: dst_x, y: dst_y });
        }
        proof {
            i = i + 1;
        }
    }
    proof {
        assert(text@.take(text@.len() as int) =~= text@);
    }
    glyphs
}

} // verus!
