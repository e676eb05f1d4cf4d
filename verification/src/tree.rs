//! The tree itself: an owned root, kept in search order at all times.

use crate::laws::{
    lemma_insert_height, lemma_insert_in_order, lemma_insert_values, lemma_lookup_finds,
    lemma_lookup_ordered, lemma_ordered_in_order, lemma_picture_len, lemma_remove_height,
    lemma_remove_ordered, lemma_remove_values, lemma_rightmost_is_greatest,
};
use crate::layout::{blank_rows, join_rows, power_of_two, slot_for};
use crate::node::{lemma_some_is_fork, link_shape, Node};
use crate::random::pick_below;
use crate::shape::{ascending, Shape};
use crate::text::string_of;
use vstd::arithmetic::power2::{lemma2_to64, pow2};
use vstd::prelude::*;

verus! {

/// Why a tree has no picture.
#[derive(Debug, Clone, Copy, PartialEq, Eq)]
pub enum RenderError {
    /// The tree holds nothing.
    EmptyTree,
    /// A row would be wider than memory can hold, or a value would end
    /// beyond its row.
    TooLarge,
}

/// An ordered binary tree of `i32` values. Equal values may be held more
/// than once; the tree is never rebalanced.
#[derive(Debug)]
pub struct Tree {
    root: Option<Box<Node>>,
}

impl View for Tree {
    type V = Shape;

    closed spec fn view(&self) -> Shape {
        link_shape(self.root)
    }
}

impl Tree {
    /// What holds of every tree at all times: its values are in search
    /// order, and its depth can be counted in an `i32`.
    #[verifier::type_invariant]
    spec fn sound(self) -> bool {
        &&& link_shape(self.root).ordered()
        &&& link_shape(self.root).height() <= i32::MAX
    }

    /// A tree that holds nothing.
    pub fn new() -> (tree: Tree)
        ensures
            tree@ == Shape::Empty,
    {
        Tree { root: None }
    }

    /// Whether the tree holds nothing.
    pub fn is_empty(&self) -> (empty: bool)
        ensures
            empty == (self@ is Empty),
    {
        match &self.root {
            None => true,
            Some(node) => {
                proof {
                    lemma_some_is_fork(self.root);
                }
                false
            },
        }
    }

    /// The greatest value held: the one at the end of the right spine.
    /// `None` for a tree that holds nothing.
    pub fn max(&self) -> (greatest: Option<i32>)
        ensures
            greatest is None <==> self@ is Empty,
            greatest is Some ==> {
                &&& greatest.unwrap() == self@.rightmost()
                &&& self@.contains(greatest.unwrap() as int)
                &&& forall|x: int| #[trigger] self@.contains(x) ==> x <= greatest.unwrap()
            },
    {
        proof {
            use_type_invariant(self);
        }
        match &self.root {
            None => None,
            Some(node) => {
                proof {
                    lemma_some_is_fork(self.root);
                    lemma_rightmost_is_greatest(node@);
                }
                Some(Node::max(node))
            },
        }
    }

    /// A copy of the first node with `value` that the search meets, with all
    /// that hangs below it. `None` exactly when the tree does not hold
    /// `value`.
    pub fn find(&self, value: i32) -> (found: Option<Node>)
        ensures
            found is Some <==> self@.contains(value as int),
            found is Some ==> found.unwrap()@ == self@.lookup(value as int),
            found is Some ==> found.unwrap()@->value == value,
            found is Some ==> found.unwrap()@.ordered(),
    {
        proof {
            use_type_invariant(self);
            lemma_lookup_finds(self@, value as int);
            lemma_lookup_ordered(self@, value as int);
        }
        match &self.root {
            None => None,
            Some(node) => {
                proof {
                    lemma_some_is_fork(self.root);
                }
                Node::find(node, value)
            },
        }
    }

    /// Hangs `value` into the tree as a new leaf: left of every greater
    /// value that the search meets, right of every other. A value that is
    /// already held is held once more afterwards.
    /// The tree must not be `i32::MAX` levels deep already: `depth` counts
    /// the levels in an `i32`.
    pub fn add(&mut self, value: i32)
        requires
            old(self)@.height() < i32::MAX,
        ensures
            final(self)@ == old(self)@.insert(value as int),
            final(self)@.ordered(),
            ascending(final(self)@.in_order()),
            final(self)@.values() == old(self)@.values().insert(value as int),
            old(self)@.height() <= final(self)@.height() <= old(self)@.height() + 1,
    {
        proof {
            use_type_invariant(&*self);
            lemma_insert_in_order(self@, value as int);
            lemma_insert_values(self@, value as int);
            lemma_insert_height(self@, value as int);
        }
        let mut root: Option<Box<Node>> = None;
        std::mem::swap(&mut self.root, &mut root);
        match root {
            None => {
                self.root = Some(Box::new(Node::leaf(value)));
            },
            Some(mut node) => {
                node.add_to(value);
                self.root = Some(node);
            },
        }
    }

    /// Takes out the first node with `value` that the search meets; a tree
    /// that does not hold `value` stays as it is. Of several equal values one
    /// goes.
    pub fn remove(&mut self, value: i32)
        ensures
            final(self)@ == old(self)@.remove(value as int),
            final(self)@.ordered(),
            ascending(final(self)@.in_order()),
            old(self)@.contains(value as int) ==> final(self)@.values() == old(
                self,
            )@.values().remove(value as int),
            !old(self)@.contains(value as int) ==> final(self)@ == old(self)@,
            final(self)@.height() <= old(self)@.height(),
    {
        proof {
            use_type_invariant(&*self);
            lemma_remove_ordered(self@, value as int);
            lemma_ordered_in_order(self@.remove(value as int));
            lemma_remove_values(self@, value as int);
            lemma_remove_height(self@, value as int);
        }
        let mut root: Option<Box<Node>> = None;
        std::mem::swap(&mut self.root, &mut root);
        Node::remove(&mut root, value);
        self.root = root;
    }

    /// The number of levels: 0 for a tree that holds nothing, otherwise one
    /// more than the depth of the deeper subtree of the root.
    pub fn depth(&self) -> (levels: i32)
        ensures
            levels == self@.height(),
    {
        proof {
            use_type_invariant(self);
        }
        match &self.root {
            None => 0,
            Some(node) => {
                proof {
                    lemma_some_is_fork(self.root);
                }
                Node::depth_of(node)
            },
        }
    }
}

impl Tree {
    /// The picture of the tree as text: one line per level, the root's
    /// first, every value at the column that its place in the tree gives
    /// it. A tree that holds nothing has no picture, nor has one whose rows
    /// would not fit.
    pub fn render(&self) -> (picture: Result<String, RenderError>)
        ensures
            self@ is Empty <==> picture == Err::<String, RenderError>(RenderError::EmptyTree),
            (self@ is Fork && !self@.renderable()) <==> picture == Err::<String, RenderError>(
                RenderError::TooLarge,
            ),
            self@.renderable() <==> picture is Ok,
            picture is Ok ==> picture.unwrap()@ == self@.picture(),
            picture is Ok ==> picture.unwrap()@.len() == self@.height() * (self@.row_width() + 1),
    {
        proof {
            use_type_invariant(self);
            lemma_picture_len(self@);
        }
        let root = match &self.root {
            None => {
                return Err(RenderError::EmptyTree);
            },
            Some(node) => node,
        };
        proof {
            lemma_some_is_fork(self.root);
            lemma_rightmost_is_greatest(self@);
        }
        let btree_depth: usize = Node::depth_of(root) as usize;
        let max_digits = slot_for(Node::max(root));
        let unit = match power_of_two(btree_depth) {
            None => {
                assert(self@.row_width() >= pow2(self@.height())) by (nonlinear_arith)
                    requires
                        self@.row_width() == pow2(self@.height()) * max_digits,
                        max_digits >= 2,
                ;
                return Err(RenderError::TooLarge);
            },
            Some(unit) => unit,
        };
        let len_of_layer = match unit.checked_mul(max_digits) {
            None => {
                return Err(RenderError::TooLarge);
            },
            Some(len) => len,
        };
        assert(2 * unit <= len_of_layer) by (nonlinear_arith)
            requires
                len_of_layer == unit * max_digits,
                max_digits >= 2,
        ;
        let mut btree_vec = blank_rows(btree_depth, len_of_layer);
        proof {
            lemma2_to64();
        }
        if !Node::print(root, &mut btree_vec, 0, btree_depth, 1, Ghost(len_of_layer as nat)) {
            return Err(RenderError::TooLarge);
        }
        Ok(string_of(&join_rows(&btree_vec)))
    }
}

impl Tree {
    /// Adds `rounds` values to the tree, each drawn at random from
    /// `0..below`. Whatever is drawn, the tree afterwards is the tree before
    /// with those values inserted one after the other.
    pub fn add_random(&mut self, rounds: usize, below: i32)
        requires
            below > 0,
            old(self)@.height() + rounds <= i32::MAX,
        ensures
            exists|drawn: Seq<int>|
                {
                    &&& drawn.len() == rounds
                    &&& forall|i: int| 0 <= i < drawn.len() ==> 0 <= #[trigger] drawn[i] < below
                    &&& final(self)@ == old(self)@.insert_all(drawn)
                },
            final(self)@.ordered(),
            final(self)@.height() <= old(self)@.height() + rounds,
    {
        proof {
            use_type_invariant(&*self);
        }
        let ghost mut drawn: Seq<int> = Seq::empty();
        let mut done: usize = 0;
        while done < rounds
            invariant
                done <= rounds,
                below > 0,
                old(self)@.height() + rounds <= i32::MAX,
                drawn.len() == done,
                forall|i: int| 0 <= i < drawn.len() ==> 0 <= #[trigger] drawn[i] < below,
                self@ == old(self)@.insert_all(drawn),
                self@.height() <= old(self)@.height() + done,
                self@.ordered(),
            decreases rounds - done,
        {
            let mut rng = rand::thread_rng();
            let value = pick_below(&mut rng, below);
            self.add(value);
            proof {
                let longer = drawn.push(value as int);
                assert(longer.drop_last() =~= drawn);
                drawn = longer;
            }
            done += 1;
        }
    }
}

impl Default for Tree {
    fn default() -> (tree: Tree)
        ensures
            tree@ == Shape::Empty,
    {
        Tree::new()
    }
}

} // verus!
