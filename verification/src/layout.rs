//! Where the picture of a tree puts each value: one row of text per level,
//! each value at a column that its place in the tree decides.

use crate::shape::Shape;
use crate::text::{
    decimal, decimal_text, digits, lemma_decimal_len, lemma_digits_grow, lemma_digits_step,
};
use vstd::arithmetic::power2::{
    lemma2_to64, lemma_pow2_pos, lemma_pow2_strictly_increases, lemma_pow2_subtracts,
    lemma_pow2_unfold, pow2,
};
use vstd::prelude::*;

verus! {

/// The columns set aside for one value: as many as the greatest value has
/// decimal digits, and two where that value is below ten. One column
/// would not do there: the root starts at column `2^depth`, which a row
/// of `2^depth` columns does not have.
pub open spec fn slot_width(greatest: int) -> nat {
    if greatest >= 10 {
        digits(greatest as nat).len()
    } else {
        2
    }
}

/// The column at which a value starts that stands on level `level` (the
/// root's is 0) of a tree with `depth` levels, under the running number
/// `index`: the root has 1, and a value with `w` has `2w - 1` to its left
/// and `2w + 1` to its right.
pub open spec fn position(depth: nat, level: nat, index: nat) -> nat {
    pow2(depth) / pow2(level) * index
}

/// `row` with `text` written over it from column `at` on.
pub open spec fn stamp(row: Seq<char>, at: int, text: Seq<char>) -> Seq<char>
    recommends
        0 <= at,
        at + text.len() <= row.len(),
{
    Seq::new(
        row.len(),
        |i: int|
            if at <= i < at + text.len() {
                text[i - at]
            } else {
                row[i]
            },
    )
}

/// `rows` rows of `width` spaces each.
pub open spec fn blank(rows: nat, width: nat) -> Seq<Seq<char>> {
    Seq::new(rows, |r: int| Seq::new(width, |c: int| ' '))
}

/// The rows of a picture as plain sequences of characters.
pub open spec fn grid(rows: Seq<Vec<char>>) -> Seq<Seq<char>> {
    Seq::new(rows.len(), |r: int| rows[r]@)
}

/// Whether `rows` has `count` rows of `width` characters each.
pub open spec fn uniform(rows: Seq<Seq<char>>, count: nat, width: nat) -> bool {
    &&& rows.len() == count
    &&& forall|r: int| 0 <= r < rows.len() ==> (#[trigger] rows[r]).len() == width
}

/// The rows as one text, each row followed by a line feed.
pub open spec fn lines(rows: Seq<Seq<char>>) -> Seq<char>
    decreases rows.len(),
{
    if rows.len() == 0 {
        Seq::empty()
    } else {
        lines(rows.drop_last()) + rows.last().push('\n')
    }
}

impl Shape {
    /// Whether every value of the shape, started at the column that
    /// `position` gives it, ends within a row of `width` characters, when the
    /// shape's top stands on `level` under `index`.
    pub open spec fn fits(self, level: nat, index: nat, depth: nat, width: nat) -> bool
        decreases self,
    {
        match self {
            Shape::Empty => true,
            Shape::Fork { left, value, right } => {
                &&& position(depth, level, index) + decimal(value).len() <= width
                &&& left.fits(level + 1, (2 * index - 1) as nat, depth, width)
                &&& right.fits(level + 1, 2 * index + 1, depth, width)
            },
        }
    }

    /// `rows` after the shape's values have been written into them: the top
    /// value first, then all of its left side, then all of its right side,
    /// each on the row of its level. A later value covers what an earlier
    /// one wrote in the same columns.
    pub open spec fn paint(self, rows: Seq<Seq<char>>, level: nat, index: nat, depth: nat) -> Seq<
        Seq<char>,
    >
        decreases self,
    {
        match self {
            Shape::Empty => rows,
            Shape::Fork { left, value, right } => {
                let here = rows.update(
                    level as int,
                    stamp(rows[level as int], position(depth, level, index) as int, decimal(value)),
                );
                let with_left = left.paint(here, level + 1, (2 * index - 1) as nat, depth);
                right.paint(with_left, level + 1, 2 * index + 1, depth)
            },
        }
    }

    /// The width of every row of the picture: `2^height` slots, each as
    /// wide as the greatest value's digits ask.
    pub open spec fn row_width(self) -> nat {
        pow2(self.height()) * slot_width(self.rightmost())
    }

    /// Whether the shape has a picture: it is not empty, its rows can be
    /// held in memory, and every value ends within its row.
    pub open spec fn renderable(self) -> bool {
        &&& self is Fork
        &&& self.row_width() <= usize::MAX
        &&& self.fits(0, 1, self.height(), self.row_width())
    }

    /// The rows of the picture: blank rows with the shape's values written
    /// into them, the top value on the first row.
    pub open spec fn canvas(self) -> Seq<Seq<char>> {
        self.paint(blank(self.height(), self.row_width()), 0, 1, self.height())
    }

    /// The picture of the shape as text: one line per level, top first.
    pub open spec fn picture(self) -> Seq<char> {
        lines(self.canvas())
    }

    /// The character that the shape's values leave at column `col` of row
    /// `row`, when the shape's top stands on `level` under `index`: that of
    /// the value on that row whose text covers the column, of the one
    /// furthest right where several do; `None` where none does.
    pub open spec fn mark(self, level: nat, index: nat, depth: nat, row: int, col: int) -> Option<
        char,
    >
        decreases self,
    {
        match self {
            Shape::Empty => None,
            Shape::Fork { left, value, right } => {
                let at = position(depth, level, index);
                let from_left = left.mark(level + 1, (2 * index - 1) as nat, depth, row, col);
                let from_right = right.mark(level + 1, 2 * index + 1, depth, row, col);
                if row == level {
                    if at <= col < at + decimal(value).len() {
                        Some(decimal(value)[col - at])
                    } else {
                        None
                    }
                } else if from_right is Some {
                    from_right
                } else {
                    from_left
                }
            },
        }
    }
}

/// Two to the power `exponent`, or `None` where that is more than a
/// `usize` holds.
pub fn power_of_two(exponent: usize) -> (power: Option<usize>)
    ensures
        power is Some <==> pow2(exponent as nat) <= usize::MAX,
        power is Some ==> power.unwrap() == pow2(exponent as nat),
{
    let mut power: usize = 1;
    let mut done: usize = 0;
    proof {
        lemma2_to64();
    }
    while done < exponent
        invariant
            done <= exponent,
            power == pow2(done as nat),
        decreases exponent - done,
    {
        proof {
            lemma_pow2_unfold((done + 1) as nat);
        }
        match power.checked_mul(2) {
            None => {
                proof {
                    if done + 1 < exponent {
                        lemma_pow2_strictly_increases((done + 1) as nat, exponent as nat);
                    }
                }
                return None;
            },
            Some(next) => {
                power = next;
            },
        }
        done += 1;
    }
    Some(power)
}

/// The column at which the value on `level` under `index` starts in a tree
/// of `depth` levels, or `None` where that is more than a `usize` holds.
pub fn column_of(depth: usize, level: usize, index: usize) -> (at: Option<usize>)
    ensures
        at is Some <==> position(depth as nat, level as nat, index as nat) <= usize::MAX,
        at is Some ==> at.unwrap() == position(depth as nat, level as nat, index as nat),
{
    if level > depth {
        proof {
            lemma_pow2_strictly_increases(depth as nat, level as nat);
            vstd::arithmetic::div_mod::lemma_basic_div(
                pow2(depth as nat) as int,
                pow2(level as nat) as int,
            );
        }
        return Some(0);
    }
    proof {
        lemma_pow2_subtracts(level as nat, depth as nat);
        lemma_pow2_pos((depth - level) as nat);
    }
    if index == 0 {
        return Some(0);
    }
    match power_of_two(depth - level) {
        None => {
            assert(pow2((depth - level) as nat) * index >= pow2((depth - level) as nat))
                by (nonlinear_arith)
                requires
                    index >= 1,
                    pow2((depth - level) as nat) > 0,
            ;
            None
        },
        Some(stride) => stride.checked_mul(index),
    }
}

/// Writes `text` over `row` from column `at` on.
pub fn write_at(row: &mut Vec<char>, at: usize, text: &Vec<char>)
    requires
        at + text.len() <= old(row).len(),
    ensures
        final(row)@ == stamp(old(row)@, at as int, text@),
{
    let mut done: usize = 0;
    while done < text.len()
        invariant
            done <= text.len(),
            at + text.len() <= row.len(),
            row@ == stamp(old(row)@, at as int, text@.take(done as int)),
        decreases text.len() - done,
    {
        row[at + done] = text[done];
        done += 1;
    }
}

/// The columns set aside for one value in the picture of a tree whose
/// greatest value is `greatest`.
pub fn slot_for(greatest: i32) -> (slot: usize)
    ensures
        slot == slot_width(greatest as int),
        2 <= slot <= 10,
{
    if greatest >= 10 {
        proof {
            lemma_decimal_len(greatest as int);
            lemma_digits_step(greatest as nat);
            lemma_digits_grow(0, (greatest / 10) as nat);
        }
        decimal_text(greatest).len()
    } else {
        2
    }
}

/// `count` rows of `width` spaces each.
pub fn blank_rows(count: usize, width: usize) -> (rows: Vec<Vec<char>>)
    ensures
        grid(rows@) == blank(count as nat, width as nat),
{
    let mut rows: Vec<Vec<char>> = Vec::new();
    let mut done: usize = 0;
    while done < count
        invariant
            done <= count,
            grid(rows@) =~= blank(done as nat, width as nat),
        decreases count - done,
    {
        let mut row: Vec<char> = Vec::new();
        let mut filled: usize = 0;
        while filled < width
            invariant
                filled <= width,
                row@ =~= Seq::new(filled as nat, |c: int| ' '),
            decreases width - filled,
        {
            row.push(' ');
            filled += 1;
        }
        let ghost before = grid(rows@);
        rows.push(row);
        done += 1;
        assert(grid(rows@) =~= before.push(row@));
    }
    rows
}

/// The rows as one text, each row followed by a line feed.
pub fn join_rows(rows: &Vec<Vec<char>>) -> (text: Vec<char>)
    ensures
        text@ == lines(grid(rows@)),
{
    let mut text: Vec<char> = Vec::new();
    let mut done: usize = 0;
    while done < rows.len()
        invariant
            done <= rows.len(),
            text@ == lines(grid(rows@).take(done as int)),
        decreases rows.len() - done,
    {
        let row = &rows[done];
        let ghost so_far = text@;
        let mut copied: usize = 0;
        while copied < row.len()
            invariant
                copied <= row.len(),
                text@ =~= so_far + row@.take(copied as int),
            decreases row.len() - copied,
        {
            text.push(row[copied]);
            copied += 1;
        }
        text.push('\n');
        done += 1;
        proof {
            let upto = grid(rows@).take(done as int);
            assert(upto.drop_last() =~= grid(rows@).take(done - 1));
        }
    }
    assert(grid(rows@).take(done as int) =~= grid(rows@));
    text
}

} // verus!
