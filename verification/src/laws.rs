//! What holds of shapes: the facts that the tree's contracts rest on, each
//! proved from the definitions of the model.

use crate::layout::{blank, lines, position, slot_width, stamp, uniform};
use crate::shape::{ascending, increasing, Shape};
use crate::text::{decimal, digits, lemma_digits_grow, lemma_digits_step};
use vstd::arithmetic::power2::{
    lemma2_to64, lemma_pow2_adds, lemma_pow2_pos, lemma_pow2_strictly_increases,
    lemma_pow2_subtracts, lemma_pow2_unfold, pow2,
};
use vstd::prelude::*;

verus! {

/// A value occurs in a shape exactly when the shape's values count it at
/// least once.
pub proof fn lemma_contains_counts(s: Shape, v: int)
    ensures
        s.contains(v) <==> s.values().count(v) > 0,
    decreases s,
{
    broadcast use vstd::multiset::group_multiset_axioms;

    match s {
        Shape::Empty => {},
        Shape::Fork { left, value, right } => {
            lemma_contains_counts(*left, v);
            lemma_contains_counts(*right, v);
        },
    }
}

/// The walk from left to right meets exactly the values that the shape
/// holds.
pub proof fn lemma_in_order_holds(s: Shape)
    ensures
        forall|x: int| #[trigger] s.in_order().contains(x) <==> s.contains(x),
        s.in_order().len() == s.size(),
    decreases s,
{
    match s {
        Shape::Empty => {},
        Shape::Fork { left, value, right } => {
            lemma_in_order_holds(*left);
            lemma_in_order_holds(*right);
            let before = left.in_order();
            let after = right.in_order();
            let walk = s.in_order();
            assert forall|x: int| #[trigger] walk.contains(x) <==> s.contains(x) by {
                if walk.contains(x) {
                    let i = choose|i: int| 0 <= i < walk.len() && walk[i] == x;
                    if i < before.len() {
                        assert(before[i] == x);
                        assert(before.contains(x));
                    } else if i > before.len() {
                        assert(after[i - before.len() - 1] == x);
                        assert(after.contains(x));
                    }
                }
                if left.contains(x) {
                    assert(before.contains(x));
                    let i = choose|i: int| 0 <= i < before.len() && before[i] == x;
                    assert(walk[i] == x);
                }
                if right.contains(x) {
                    assert(after.contains(x));
                    let i = choose|i: int| 0 <= i < after.len() && after[i] == x;
                    assert(walk[before.len() + 1 + i] == x);
                }
                if x == value {
                    assert(walk[before.len() as int] == x);
                }
            }
        },
    }
}

/// In an ordered shape the walk from left to right meets the values in
/// ascending order.
pub proof fn lemma_ordered_in_order(s: Shape)
    requires
        s.ordered(),
    ensures
        ascending(s.in_order()),
    decreases s,
{
    match s {
        Shape::Empty => {},
        Shape::Fork { left, value, right } => {
            lemma_ordered_in_order(*left);
            lemma_ordered_in_order(*right);
            lemma_in_order_holds(*left);
            lemma_in_order_holds(*right);
            let before = left.in_order();
            let after = right.in_order();
            let walk = s.in_order();
            assert forall|i: int, j: int| 0 <= i < j < walk.len() implies walk[i] <= walk[j] by {
                if i < before.len() {
                    assert(before.contains(before[i]));
                    assert(walk[i] < value);
                } else if i > before.len() {
                    assert(walk[i] == after[i - before.len() - 1]);
                }
                if j < before.len() {
                    assert(walk[j] == before[j]);
                } else if j > before.len() {
                    assert(after.contains(after[j - before.len() - 1]));
                    assert(value <= walk[j]);
                }
            }
        },
    }
}

/// Whatever value is inserted into an ordered shape, of whatever height,
/// the walk from left to right meets the values in ascending order
/// afterwards.
pub proof fn lemma_insert_in_order(s: Shape, v: int)
    requires
        s.ordered(),
    ensures
        s.insert(v).ordered(),
        ascending(s.insert(v).in_order()),
{
    lemma_insert_ordered(s, v);
    lemma_ordered_in_order(s.insert(v));
}

/// After an insertion the shape holds what it held before, and the new value.
pub proof fn lemma_insert_contains(s: Shape, v: int)
    ensures
        forall|x: int| #[trigger] s.insert(v).contains(x) <==> (x == v || s.contains(x)),
    decreases s,
{
    match s {
        Shape::Empty => {
            assert forall|x: int| #[trigger] s.insert(v).contains(x) <==> (x == v || s.contains(
                x,
            )) by {
            }
        },
        Shape::Fork { left, value, right } => {
            lemma_insert_contains(*left, v);
            lemma_insert_contains(*right, v);
            assert forall|x: int| #[trigger] s.insert(v).contains(x) <==> (x == v || s.contains(
                x,
            )) by {
                if v < value {
                    assert(left.insert(v).contains(x) <==> (x == v || left.contains(x)));
                } else {
                    assert(right.insert(v).contains(x) <==> (x == v || right.contains(x)));
                }
            }
        },
    }
}

/// An insertion adds one occurrence of the new value and changes no other
/// count.
pub proof fn lemma_insert_values(s: Shape, v: int)
    ensures
        s.insert(v).values() == s.values().insert(v),
        s.insert(v).size() == s.size() + 1,
    decreases s,
{
    broadcast use vstd::multiset::group_multiset_axioms;

    match s {
        Shape::Empty => {
        },
        Shape::Fork { left, value, right } => {
            lemma_insert_values(*left, v);
            lemma_insert_values(*right, v);
        },
    }
}

/// An insertion keeps the search order.
pub proof fn lemma_insert_ordered(s: Shape, v: int)
    requires
        s.ordered(),
    ensures
        s.insert(v).ordered(),
    decreases s,
{
    match s {
        Shape::Empty => {},
        Shape::Fork { left, value, right } => {
            if v < value {
                lemma_insert_ordered(*left, v);
                lemma_insert_contains(*left, v);
            } else {
                lemma_insert_ordered(*right, v);
                lemma_insert_contains(*right, v);
            }
        },
    }
}

/// An insertion never lowers a shape and raises it by one level at most.
pub proof fn lemma_insert_height(s: Shape, v: int)
    ensures
        s.height() <= s.insert(v).height() <= s.height() + 1,
    decreases s,
{
    match s {
        Shape::Empty => {
        },
        Shape::Fork { left, value, right } => {
            lemma_insert_height(*left, v);
            lemma_insert_height(*right, v);
        },
    }
}

/// In an ordered shape that is not empty, the value at the end of the left
/// spine occurs in the shape and no value is smaller.
pub proof fn lemma_leftmost_is_least(s: Shape)
    requires
        s.ordered(),
        s is Fork,
    ensures
        s.contains(s.leftmost()),
        s.all_from(s.leftmost()),
    decreases s,
{
    match s {
        Shape::Empty => {},
        Shape::Fork { left, value, right } => {
            if *left is Fork {
                lemma_leftmost_is_least(*left);
            }
            assert forall|x: int| #[trigger] s.contains(x) implies s.leftmost() <= x by {
                if left.contains(x) {
                } else if right.contains(x) {
                }
            }
        },
    }
}

/// In an ordered shape that is not empty, the value at the end of the right
/// spine occurs in the shape and no value is greater.
pub proof fn lemma_rightmost_is_greatest(s: Shape)
    requires
        s.ordered(),
        s is Fork,
    ensures
        s.contains(s.rightmost()),
        forall|x: int| #[trigger] s.contains(x) ==> x <= s.rightmost(),
    decreases s,
{
    match s {
        Shape::Empty => {},
        Shape::Fork { left, value, right } => {
            if *right is Fork {
                lemma_rightmost_is_greatest(*right);
            }
            assert forall|x: int| #[trigger] s.contains(x) implies x <= s.rightmost() by {
                if right.contains(x) {
                } else if left.contains(x) {
                }
            }
        },
    }
}

/// Removing a value that does not occur changes nothing: the shape stays
/// as it is, and with it its height, its greatest value and its picture.
pub proof fn lemma_remove_absent(s: Shape, v: int)
    requires
        !s.contains(v),
    ensures
        s.remove(v) == s,
        s.remove(v).height() == s.height(),
        s.remove(v).rightmost() == s.rightmost(),
        s.remove(v).renderable() == s.renderable(),
        s.remove(v).picture() == s.picture(),
    decreases s,
{
    match s {
        Shape::Empty => {},
        Shape::Fork { left, value, right } => {
            lemma_remove_absent(*left, v);
            lemma_remove_absent(*right, v);
        },
    }
}

/// In an ordered shape a removal takes away exactly one occurrence of a
/// value that occurs, and leaves every other count as it was.
pub proof fn lemma_remove_values(s: Shape, v: int)
    requires
        s.ordered(),
    ensures
        s.contains(v) ==> s.remove(v).values() == s.values().remove(v),
        s.contains(v) ==> s.remove(v).size() + 1 == s.size(),
        !s.contains(v) ==> s.remove(v) == s,
    decreases s,
{
    broadcast use vstd::multiset::group_multiset_axioms;

    if !s.contains(v) {
        lemma_remove_absent(s, v);
    } else {
        match s {
            Shape::Empty => {},
            Shape::Fork { left, value, right } => {
                lemma_contains_counts(*left, v);
                lemma_contains_counts(*right, v);
                if v < value {
                    lemma_remove_values(*left, v);
                } else if v > value {
                    lemma_remove_values(*right, v);
                } else if *left is Empty {
                } else if *right is Empty {
                } else {
                    let m = right.leftmost();
                    lemma_leftmost_is_least(*right);
                    lemma_remove_values(*right, m);
                    lemma_contains_counts(*right, m);
                }
            },
        }
    }
}

/// In an ordered shape a removal brings in no value that was not there.
pub proof fn lemma_remove_contains(s: Shape, v: int)
    requires
        s.ordered(),
    ensures
        forall|x: int| #[trigger] s.remove(v).contains(x) ==> s.contains(x),
        forall|x: int| x != v && s.contains(x) ==> #[trigger] s.remove(v).contains(x),
{
    broadcast use vstd::multiset::group_multiset_axioms;

    lemma_remove_values(s, v);
    assert forall|x: int| #[trigger] s.remove(v).contains(x) implies s.contains(x) by {
        lemma_contains_counts(s.remove(v), x);
        lemma_contains_counts(s, x);
    }
    assert forall|x: int| x != v && s.contains(x) implies #[trigger] s.remove(v).contains(x) by {
        lemma_contains_counts(s.remove(v), x);
        lemma_contains_counts(s, x);
    }
}

/// A removal keeps the search order.
pub proof fn lemma_remove_ordered(s: Shape, v: int)
    requires
        s.ordered(),
    ensures
        s.remove(v).ordered(),
    decreases s,
{
    match s {
        Shape::Empty => {},
        Shape::Fork { left, value, right } => {
            if v < value {
                lemma_remove_ordered(*left, v);
                lemma_remove_contains(*left, v);
            } else if v > value {
                lemma_remove_ordered(*right, v);
                lemma_remove_contains(*right, v);
            } else if *left is Empty {
            } else if *right is Empty {
            } else {
                let m = right.leftmost();
                lemma_leftmost_is_least(*right);
                lemma_remove_ordered(*right, m);
                lemma_remove_contains(*right, m);
            }
        },
    }
}

/// A removal never raises a shape.
pub proof fn lemma_remove_height(s: Shape, v: int)
    ensures
        s.remove(v).height() <= s.height(),
    decreases s,
{
    match s {
        Shape::Empty => {},
        Shape::Fork { left, value, right } => {
            lemma_remove_height(*left, v);
            lemma_remove_height(*right, v);
            lemma_remove_height(*right, right.leftmost());
        },
    }
}

/// In an ordered shape the search finds a value exactly when it occurs, and
/// what it finds starts with that value.
pub proof fn lemma_lookup_finds(s: Shape, v: int)
    requires
        s.ordered(),
    ensures
        s.lookup(v) is Fork <==> s.contains(v),
        s.lookup(v) is Fork ==> s.lookup(v)->value == v,
    decreases s,
{
    match s {
        Shape::Empty => {},
        Shape::Fork { left, value, right } => {
            lemma_lookup_finds(*left, v);
            lemma_lookup_finds(*right, v);
        },
    }
}

/// Inserting a value that does not occur and removing it at once gives the
/// shape back as it was.
pub proof fn lemma_insert_remove(s: Shape, v: int)
    requires
        !s.contains(v),
    ensures
        s.insert(v).remove(v) == s,
    decreases s,
{
    match s {
        Shape::Empty => {},
        Shape::Fork { left, value, right } => {
            if v < value {
                lemma_insert_remove(*left, v);
            } else {
                lemma_insert_remove(*right, v);
            }
        },
    }
}

/// Inserting a value beyond either end of an ordered shape, greater than
/// its greatest or smaller than its smallest, and removing it at once gives
/// the shape back as it was.
pub proof fn lemma_insert_remove_beyond(s: Shape, v: int)
    requires
        s.ordered(),
        s is Fork ==> v > s.rightmost() || v < s.leftmost(),
    ensures
        s.insert(v).remove(v) == s,
{
    if s is Fork {
        lemma_rightmost_is_greatest(s);
        lemma_leftmost_is_least(s);
    }
    lemma_insert_remove(s, v);
}

/// However often a value that does not occur is inserted and removed at
/// once, the shape stays as it was, and with it its height and its
/// picture.
pub proof fn lemma_churn(s: Shape, v: int, rounds: nat)
    requires
        !s.contains(v),
    ensures
        s.churn(v, rounds) == s,
        s.churn(v, rounds).height() == s.height(),
        s.churn(v, rounds).renderable() == s.renderable(),
        s.churn(v, rounds).picture() == s.picture(),
    decreases rounds,
{
    if rounds > 0 {
        lemma_churn(s, v, (rounds - 1) as nat);
        lemma_insert_remove(s, v);
    }
}

/// After a run of insertions the shape holds what it held before and the
/// values inserted.
pub proof fn lemma_insert_all_contains(s: Shape, vs: Seq<int>)
    ensures
        forall|x: int| #[trigger] s.insert_all(vs).contains(x) <==> (s.contains(x) || vs.contains(x)),
    decreases vs.len(),
{
    if vs.len() > 0 {
        let before = s.insert_all(vs.drop_last());
        lemma_insert_all_contains(s, vs.drop_last());
        lemma_insert_contains(before, vs.last());
        assert forall|x: int| #[trigger]
            s.insert_all(vs).contains(x) <==> (s.contains(x) || vs.contains(x)) by {
            if vs.contains(x) {
                let i = choose|i: int| 0 <= i < vs.len() && vs[i] == x;
                if i < vs.len() - 1 {
                    assert(vs.drop_last()[i] == x);
                }
            }
        }
    }
}

/// Whatever is inserted into an ordered shape, in whatever order, the
/// shape stays ordered: at every fork the values to its left are smaller
/// than the fork's value, and those to its right are not.
pub proof fn lemma_insert_all_ordered(s: Shape, vs: Seq<int>)
    requires
        s.ordered(),
    ensures
        s.insert_all(vs).ordered(),
    decreases vs.len(),
{
    if vs.len() > 0 {
        lemma_insert_all_ordered(s, vs.drop_last());
        lemma_insert_ordered(s.insert_all(vs.drop_last()), vs.last());
    }
}

/// A value that is not smaller than any in a chain to the right is hung at
/// the chain's end: the chain grows by one level.
pub proof fn lemma_insert_extends_chain(s: Shape, v: int)
    requires
        s.right_chain(),
        forall|x: int| #[trigger] s.contains(x) ==> x <= v,
    ensures
        s.insert(v).right_chain(),
        s.insert(v).height() == s.height() + 1,
    decreases s,
{
    match s {
        Shape::Empty => {
        },
        Shape::Fork { left, value, right } => {
            assert(s.contains(value));
            assert forall|x: int| #[trigger] right.contains(x) implies x <= v by {
                assert(s.contains(x));
            }
            lemma_insert_extends_chain(*right, v);
        },
    }
}

/// Values inserted in strictly increasing order into the empty shape make
/// a chain to the right, as high as there are values.
pub proof fn lemma_increasing_inserts(vs: Seq<int>)
    requires
        increasing(vs),
    ensures
        Shape::Empty.insert_all(vs).right_chain(),
        Shape::Empty.insert_all(vs).height() == vs.len(),
    decreases vs.len(),
{
    if vs.len() > 0 {
        let before = Shape::Empty.insert_all(vs.drop_last());
        lemma_increasing_inserts(vs.drop_last());
        lemma_insert_all_contains(Shape::Empty, vs.drop_last());
        assert forall|x: int| #[trigger] before.contains(x) implies x <= vs.last() by {
            let i = choose|i: int| 0 <= i < vs.drop_last().len() && vs.drop_last()[i] == x;
        }
        lemma_insert_extends_chain(before, vs.last());
    }
}

/// No shape holds more than `2^height - 1` values.
pub proof fn lemma_size_bound(s: Shape)
    ensures
        s.size() + 1 <= pow2(s.height()),
    decreases s,
{
    lemma2_to64();
    match s {
        Shape::Empty => {},
        Shape::Fork { left, value, right } => {
            lemma_size_bound(*left);
            lemma_size_bound(*right);
            lemma_pow2_unfold(s.height());
            if left.height() < right.height() {
                lemma_pow2_strictly_increases(left.height(), right.height());
            } else if right.height() < left.height() {
                lemma_pow2_strictly_increases(right.height(), left.height());
            }
        },
    }
}

/// A full shape holds exactly `2^height - 1` values.
pub proof fn lemma_full_size(s: Shape)
    requires
        s.full(),
    ensures
        s.size() + 1 == pow2(s.height()),
    decreases s,
{
    lemma2_to64();
    match s {
        Shape::Empty => {},
        Shape::Fork { left, value, right } => {
            lemma_full_size(*left);
            lemma_full_size(*right);
            lemma_pow2_unfold(s.height());
        },
    }
}

/// A full shape of `2^k - 1` values has exactly `k` levels.
pub proof fn lemma_full_height(s: Shape, k: nat)
    requires
        s.full(),
        s.size() + 1 == pow2(k),
    ensures
        s.height() == k,
{
    lemma_full_size(s);
    if s.height() < k {
        lemma_pow2_strictly_increases(s.height(), k);
    } else if k < s.height() {
        lemma_pow2_strictly_increases(k, s.height());
    }
}

/// What the search finds in an ordered shape is ordered itself.
pub proof fn lemma_lookup_ordered(s: Shape, v: int)
    requires
        s.ordered(),
    ensures
        s.lookup(v).ordered(),
    decreases s,
{
    match s {
        Shape::Empty => {},
        Shape::Fork { left, value, right } => {
            lemma_lookup_ordered(*left, v);
            lemma_lookup_ordered(*right, v);
        },
    }
}

/// Texts of `slot` characters at most, on rows with a slot of `slot`
/// columns, two or more, for each of the `2^depth` columns of values, all
/// end within their rows.
pub proof fn lemma_short_texts_fit(s: Shape, level: nat, index: nat, depth: nat, slot: nat)
    requires
        level + s.height() <= depth,
        1 <= index < pow2(level + 1),
        slot >= 2,
        forall|x: int| #[trigger] s.contains(x) ==> decimal(x).len() <= slot,
    ensures
        s.fits(level, index, depth, pow2(depth) * slot),
    decreases s,
{
    match s {
        Shape::Empty => {},
        Shape::Fork { left, value, right } => {
            assert(s.contains(value));
            assert forall|x: int| #[trigger] left.contains(x) implies decimal(x).len() <= slot by {
                assert(s.contains(x));
            }
            assert forall|x: int| #[trigger] right.contains(x) implies decimal(x).len() <= slot by {
                assert(s.contains(x));
            }
            lemma_pow2_unfold(level + 2);
            lemma_short_texts_fit(*left, level + 1, (2 * index - 1) as nat, depth, slot);
            lemma_short_texts_fit(*right, level + 1, 2 * index + 1, depth, slot);
            // the value's own text: it starts two columns or more before
            // the end of the second slot of its row
            let stride = pow2((depth - level) as nat);
            let whole = pow2(depth);
            lemma_pow2_subtracts(level, depth);
            lemma_pow2_adds((depth - level) as nat, level);
            lemma_pow2_unfold(level + 1);
            lemma_pow2_unfold((depth - level) as nat);
            lemma_pow2_pos((depth - level - 1) as nat);
            lemma_pow2_pos(level);
            assert(stride * index + slot <= whole * slot) by (nonlinear_arith)
                requires
                    index + 1 <= 2 * pow2(level),
                    stride * pow2(level) == whole,
                    pow2(level) >= 1,
                    stride >= 2,
                    slot >= 2,
            ;
        },
    }
}

/// An ordered shape that holds no negative value has a picture, if only a
/// row of it can be held in memory.
pub proof fn lemma_picture_without_negatives(s: Shape)
    requires
        s.ordered(),
        s is Fork,
        forall|x: int| #[trigger] s.contains(x) ==> 0 <= x,
        s.row_width() <= usize::MAX,
    ensures
        s.renderable(),
{
    lemma_rightmost_is_greatest(s);
    let greatest = s.rightmost();
    let slot = slot_width(greatest);
    if greatest >= 10 {
        lemma_digits_step(greatest as nat);
        lemma_digits_grow(0, (greatest / 10) as nat);
    }
    assert forall|x: int| #[trigger] s.contains(x) implies decimal(x).len() <= slot by {
        if greatest >= 10 {
            lemma_digits_grow(x as nat, greatest as nat);
        }
    }
    lemma2_to64();
    lemma_short_texts_fit(s, 0, 1, s.height(), slot);
}

/// Where the greatest value has two digits or more, every row of the
/// picture is `2^height` times as wide as that value has digits; where it
/// is below ten, `2^height` times two.
pub proof fn lemma_row_width(s: Shape)
    ensures
        s.rightmost() >= 10 ==> s.row_width() == pow2(s.height()) * digits(
            s.rightmost() as nat,
        ).len(),
        s.rightmost() < 10 ==> s.row_width() == pow2(s.height()) * 2,
{
}

/// Writing a shape's values into rows changes neither the number of rows
/// nor their width.
pub proof fn lemma_paint_keeps_size(
    s: Shape,
    rows: Seq<Seq<char>>,
    level: nat,
    index: nat,
    depth: nat,
    width: nat,
)
    requires
        level + s.height() <= depth,
        uniform(rows, depth, width),
    ensures
        uniform(s.paint(rows, level, index, depth), depth, width),
    decreases s,
{
    match s {
        Shape::Empty => {},
        Shape::Fork { left, value, right } => {
            let at = position(depth, level, index);
            let here = rows.update(level as int, stamp(rows[level as int], at as int, decimal(value)));
            lemma_paint_keeps_size(*left, here, level + 1, (2 * index - 1) as nat, depth, width);
            let with_left = left.paint(here, level + 1, (2 * index - 1) as nat, depth);
            lemma_paint_keeps_size(*right, with_left, level + 1, 2 * index + 1, depth, width);
        },
    }
}

/// Rows of one width, joined, make a text of one more character for each
/// row than the rows hold.
pub proof fn lemma_lines_len(rows: Seq<Seq<char>>, count: nat, width: nat)
    requires
        uniform(rows, count, width),
    ensures
        lines(rows).len() == count * (width + 1),
    decreases rows.len(),
{
    if rows.len() > 0 {
        lemma_lines_len(rows.drop_last(), (count - 1) as nat, width);
        assert(count * (width + 1) == (count - 1) * (width + 1) + (width + 1))
            by (nonlinear_arith);
    } else {
        assert(count * (width + 1) == 0) by (nonlinear_arith)
            requires
                count == 0,
        ;
    }
}

/// A shape leaves no mark on the rows above its top.
pub proof fn lemma_no_mark_above(s: Shape, level: nat, index: nat, depth: nat, row: int, col: int)
    requires
        row < level,
    ensures
        s.mark(level, index, depth, row, col) is None,
    decreases s,
{
    match s {
        Shape::Empty => {},
        Shape::Fork { left, value, right } => {
            lemma_no_mark_above(*left, level + 1, (2 * index - 1) as nat, depth, row, col);
            lemma_no_mark_above(*right, level + 1, 2 * index + 1, depth, row, col);
        },
    }
}

/// After a shape has been written into rows, every place holds the
/// shape's mark for it, and what it held before where the shape has none.
pub proof fn lemma_paint_cells(
    s: Shape,
    rows: Seq<Seq<char>>,
    level: nat,
    index: nat,
    depth: nat,
    width: nat,
)
    requires
        level + s.height() <= depth,
        uniform(rows, depth, width),
    ensures
        forall|r: int, c: int|
            0 <= r < depth && 0 <= c < width ==> #[trigger] s.paint(rows, level, index, depth)[r][c]
                == match s.mark(level, index, depth, r, c) {
                Some(ch) => ch,
                None => rows[r][c],
            },
    decreases s,
{
    match s {
        Shape::Empty => {},
        Shape::Fork { left, value, right } => {
            let at = position(depth, level, index);
            let text = decimal(value);
            let left_index = (2 * index - 1) as nat;
            let right_index = 2 * index + 1;
            let here = rows.update(level as int, stamp(rows[level as int], at as int, text));
            let with_left = left.paint(here, level + 1, left_index, depth);
            lemma_paint_keeps_size(*left, here, level + 1, left_index, depth, width);
            lemma_paint_cells(*left, here, level + 1, left_index, depth, width);
            lemma_paint_cells(*right, with_left, level + 1, right_index, depth, width);
            assert forall|r: int, c: int| 0 <= r < depth && 0 <= c < width implies #[trigger] s.paint(
                rows,
                level,
                index,
                depth,
            )[r][c] == match s.mark(level, index, depth, r, c) {
                Some(ch) => ch,
                None => rows[r][c],
            } by {
                let last = right.paint(with_left, level + 1, right_index, depth);
                assert(last[r][c] == match right.mark(level + 1, right_index, depth, r, c) {
                    Some(ch) => ch,
                    None => with_left[r][c],
                });
                assert(with_left[r][c] == match left.mark(level + 1, left_index, depth, r, c) {
                    Some(ch) => ch,
                    None => here[r][c],
                });
                if r == level {
                    lemma_no_mark_above(*left, level + 1, left_index, depth, r, c);
                    lemma_no_mark_above(*right, level + 1, right_index, depth, r, c);
                }
            }
        },
    }
}

/// Every place of a picture holds the character of the value that covers
/// it, and a space where none does.
pub proof fn lemma_canvas_cells(s: Shape)
    ensures
        uniform(s.canvas(), s.height(), s.row_width()),
        forall|r: int, c: int|
            0 <= r < s.height() && 0 <= c < s.row_width() ==> #[trigger] s.canvas()[r][c]
                == match s.mark(0, 1, s.height(), r, c) {
                Some(ch) => ch,
                None => ' ',
            },
{
    let rows = blank(s.height(), s.row_width());
    lemma_paint_keeps_size(s, rows, 0, 1, s.height(), s.row_width());
    lemma_paint_cells(s, rows, 0, 1, s.height(), s.row_width());
}

/// In rows of one width, joined, the character at column `c` of row `r`
/// stands at place `r * (width + 1) + c`, and a line feed ends every row.
pub proof fn lemma_lines_cells(rows: Seq<Seq<char>>, count: nat, width: nat, r: int, c: int)
    requires
        uniform(rows, count, width),
        0 <= r < count,
        0 <= c <= width,
    ensures
        0 <= r * (width + 1) + c < lines(rows).len(),
        lines(rows)[r * (width + 1) + c] == if c < width {
            rows[r][c]
        } else {
            '\n'
        },
    decreases rows.len(),
{
    lemma_lines_len(rows, count, width);
    lemma_lines_len(rows.drop_last(), (count - 1) as nat, width);
    assert(0 <= r * (width + 1) <= (count - 1) * (width + 1)) by (nonlinear_arith)
        requires
            0 <= r <= count - 1,
            width >= 0,
    ;
    assert(count * (width + 1) == (count - 1) * (width + 1) + (width + 1)) by (nonlinear_arith);
    if r < count - 1 {
        lemma_lines_cells(rows.drop_last(), (count - 1) as nat, width, r, c);
    }
}

/// The picture of a shape has one line for each level, each as wide as a
/// row and ended by a line feed.
pub proof fn lemma_picture_len(s: Shape)
    ensures
        s.picture().len() == s.height() * (s.row_width() + 1),
{
    let rows = blank(s.height(), s.row_width());
    lemma_paint_keeps_size(s, rows, 0, 1, s.height(), s.row_width());
    lemma_lines_len(s.paint(rows, 0, 1, s.height()), s.height(), s.row_width());
}

} // verus!
