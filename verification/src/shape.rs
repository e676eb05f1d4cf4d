//! The mathematical model: a tree's shape, and the functions on shapes that
//! the contracts of the executable code speak of.

use vstd::multiset::Multiset;
use vstd::prelude::*;

verus! {

/// What a tree is, apart from how it is stored: nothing, or a value with a
/// shape hanging to its left and one to its right.
pub enum Shape {
    Empty,
    Fork { left: Box<Shape>, value: int, right: Box<Shape> },
}

impl Shape {
    /// A single value with nothing below it.
    pub open spec fn leaf(v: int) -> Shape {
        Shape::Fork { left: Box::new(Shape::Empty), value: v, right: Box::new(Shape::Empty) }
    }

    /// The number of levels: 0 for the empty shape, otherwise one more than
    /// the taller side.
    pub open spec fn height(self) -> nat
        decreases self,
    {
        match self {
            Shape::Empty => 0,
            Shape::Fork { left, value, right } => {
                if left.height() > right.height() {
                    left.height() + 1
                } else {
                    right.height() + 1
                }
            },
        }
    }

    /// The number of values held.
    pub open spec fn size(self) -> nat
        decreases self,
    {
        match self {
            Shape::Empty => 0,
            Shape::Fork { left, value, right } => left.size() + 1 + right.size(),
        }
    }

    /// The values held, each as often as it occurs.
    pub open spec fn values(self) -> Multiset<int>
        decreases self,
    {
        match self {
            Shape::Empty => Multiset::empty(),
            Shape::Fork { left, value, right } => left.values().add(right.values()).insert(value),
        }
    }

    /// Whether `v` occurs anywhere in the shape.
    pub open spec fn contains(self, v: int) -> bool
        decreases self,
    {
        match self {
            Shape::Empty => false,
            Shape::Fork { left, value, right } => value == v || left.contains(v) || right.contains(
                v,
            ),
        }
    }

    /// Every value held is smaller than `bound`.
    pub open spec fn all_below(self, bound: int) -> bool {
        forall|x: int| #[trigger] self.contains(x) ==> x < bound
    }

    /// Every value held is `bound` or more.
    pub open spec fn all_from(self, bound: int) -> bool {
        forall|x: int| #[trigger] self.contains(x) ==> bound <= x
    }

    /// The search order: at every fork, what hangs left is smaller than the
    /// fork's value, and what hangs right is equal to it or greater.
    pub open spec fn ordered(self) -> bool
        decreases self,
    {
        match self {
            Shape::Empty => true,
            Shape::Fork { left, value, right } => {
                &&& left.ordered()
                &&& right.ordered()
                &&& left.all_below(value)
                &&& right.all_from(value)
            },
        }
    }

    /// The values in the order of a walk from left to right: all of the
    /// left side, the fork's value, all of the right side.
    pub open spec fn in_order(self) -> Seq<int>
        decreases self,
    {
        match self {
            Shape::Empty => Seq::empty(),
            Shape::Fork { left, value, right } => left.in_order().push(value) + right.in_order(),
        }
    }

    /// The value at the end of the left spine (0 for the empty shape).
    pub open spec fn leftmost(self) -> int
        decreases self,
    {
        match self {
            Shape::Empty => 0,
            Shape::Fork { left, value, right } => if *left is Empty {
                value
            } else {
                left.leftmost()
            },
        }
    }

    /// The value at the end of the right spine (0 for the empty shape).
    pub open spec fn rightmost(self) -> int
        decreases self,
    {
        match self {
            Shape::Empty => 0,
            Shape::Fork { left, value, right } => if *right is Empty {
                value
            } else {
                right.rightmost()
            },
        }
    }

    /// The shape after `v` has been hung as a new leaf where the search for
    /// it ends: left of a greater value, right of an equal or smaller one.
    pub open spec fn insert(self, v: int) -> Shape
        decreases self,
    {
        match self {
            Shape::Empty => Shape::leaf(v),
            Shape::Fork { left, value, right } => if v < value {
                Shape::Fork { left: Box::new(left.insert(v)), value, right }
            } else {
                Shape::Fork { left, value, right: Box::new(right.insert(v)) }
            },
        }
    }

    /// The shape after the first fork that the search for `v` meets with that
    /// value has been taken out. A fork with one side empty gives way to its
    /// other side; a fork with two sides takes the smallest value of its right
    /// side, which loses it in turn. Without such a fork nothing changes.
    pub open spec fn remove(self, v: int) -> Shape
        decreases self,
    {
        match self {
            Shape::Empty => Shape::Empty,
            Shape::Fork { left, value, right } => if v < value {
                Shape::Fork { left: Box::new(left.remove(v)), value, right }
            } else if v > value {
                Shape::Fork { left, value, right: Box::new(right.remove(v)) }
            } else if *left is Empty {
                *right
            } else if *right is Empty {
                *left
            } else {
                Shape::Fork {
                    left,
                    value: right.leftmost(),
                    right: Box::new(right.remove(right.leftmost())),
                }
            },
        }
    }

    /// The part of the shape that hangs at the first fork with value `v` that
    /// the search for `v` meets, that fork included; empty without one.
    pub open spec fn lookup(self, v: int) -> Shape
        decreases self,
    {
        match self {
            Shape::Empty => Shape::Empty,
            Shape::Fork { left, value, right } => if v == value {
                self
            } else if v < value {
                left.lookup(v)
            } else {
                right.lookup(v)
            },
        }
    }

    /// The shape after `rounds` times inserting `v` and removing it again at
    /// once.
    pub open spec fn churn(self, v: int, rounds: nat) -> Shape
        decreases rounds,
    {
        if rounds == 0 {
            self
        } else {
            self.churn(v, (rounds - 1) as nat).insert(v).remove(v)
        }
    }

    /// Whether nothing hangs left anywhere: the shape is a chain to the
    /// right.
    pub open spec fn right_chain(self) -> bool
        decreases self,
    {
        match self {
            Shape::Empty => true,
            Shape::Fork { left, value, right } => *left is Empty && right.right_chain(),
        }
    }

    /// Whether the shape is filled level by level: at every fork both sides
    /// are full and of the same height.
    pub open spec fn full(self) -> bool
        decreases self,
    {
        match self {
            Shape::Empty => true,
            Shape::Fork { left, value, right } => {
                &&& left.full()
                &&& right.full()
                &&& left.height() == right.height()
            },
        }
    }

    /// The shape after the values of `vs` have been inserted one by one,
    /// first to last.
    pub open spec fn insert_all(self, vs: Seq<int>) -> Shape
        decreases vs.len(),
    {
        if vs.len() == 0 {
            self
        } else {
            self.insert_all(vs.drop_last()).insert(vs.last())
        }
    }
}

/// Whether no value of `vs` is greater than one that follows it.
pub open spec fn ascending(vs: Seq<int>) -> bool {
    forall|i: int, j: int| 0 <= i < j < vs.len() ==> vs[i] <= vs[j]
}

/// Whether every value of `vs` is smaller than all that follow it.
pub open spec fn increasing(vs: Seq<int>) -> bool {
    forall|i: int, j: int| 0 <= i < j < vs.len() ==> vs[i] < vs[j]
}

} // verus!
