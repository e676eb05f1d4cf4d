//! The stored tree: one owned node per value, each holding its two subtrees.

use crate::layout::{column_of, grid, position, stamp, uniform, write_at};
use crate::shape::Shape;
use crate::text::decimal_text;
use vstd::arithmetic::power2::{
    lemma_pow2_adds, lemma_pow2_strictly_increases, lemma_pow2_subtracts, lemma_pow2_unfold, pow2,
};
use vstd::prelude::*;

verus! {

/// One stored value with the subtrees that hang below it.
#[derive(PartialEq, Eq, Debug)]
pub struct Node {
    value: i32,
    left: Option<Box<Node>>,
    right: Option<Box<Node>>,
}

/// The shape of what a link holds: empty for no node.
pub open spec fn link_shape(link: Option<Box<Node>>) -> Shape
    decreases link,
{
    match link {
        None => Shape::Empty,
        Some(node) => node.shape(),
    }
}

/// On `level` of a tree of `depth` levels, a value under a running number
/// below `2^(level + 1)` starts left of column `2^(depth + 1)`.
proof fn lemma_position_bound(depth: nat, level: nat, index: nat)
    requires
        level <= depth,
        index < pow2(level + 1),
    ensures
        position(depth, level, index) < 2 * pow2(depth),
{
    lemma_pow2_subtracts(level, depth);
    lemma_pow2_adds((depth - level) as nat, level + 1);
    lemma_pow2_unfold(depth + 1);
    let stride = pow2((depth - level) as nat);
    assert(stride * index < stride * pow2(level + 1)) by (nonlinear_arith)
        requires
            stride > 0,
            index < pow2(level + 1),
    ;
}

/// Below a level that is not the last, the running numbers still fit.
proof fn lemma_index_room(level: nat, depth: nat)
    requires
        level + 2 <= depth,
    ensures
        pow2(level + 2) == 2 * pow2(level + 1),
        2 * pow2(level + 1) <= pow2(depth),
{
    lemma_pow2_unfold(level + 2);
    if level + 2 < depth {
        lemma_pow2_strictly_increases(level + 2, depth);
    }
}

/// A link that holds a node has a shape that is not empty.
pub proof fn lemma_some_is_fork(link: Option<Box<Node>>)
    requires
        link is Some,
    ensures
        link_shape(link) is Fork,
{
}

impl View for Node {
    type V = Shape;

    open spec fn view(&self) -> Shape {
        self.shape()
    }
}

impl Node {
    /// The shape of the subtree that starts at this node: never empty.
    pub closed spec fn shape(self) -> Shape
        decreases self,
    {
        Shape::Fork {
            left: Box::new(link_shape(self.left)),
            value: self.value as int,
            right: Box::new(link_shape(self.right)),
        }
    }

    /// The value that this node holds.
    pub fn value(&self) -> (v: i32)
        ensures
            self@ is Fork,
            v == self@->value,
    {
        self.value
    }

    /// The node at the top of what hangs to the left, if anything does.
    pub fn left(&self) -> (child: Option<&Node>)
        ensures
            self@ is Fork,
            child is Some <==> *self@->left is Fork,
            child is Some ==> child.unwrap()@ == *self@->left,
    {
        match &self.left {
            None => None,
            Some(node) => {
                proof {
                    lemma_some_is_fork(self.left);
                }
                Some(&**node)
            },
        }
    }

    /// The node at the top of what hangs to the right, if anything does.
    pub fn right(&self) -> (child: Option<&Node>)
        ensures
            self@ is Fork,
            child is Some <==> *self@->right is Fork,
            child is Some ==> child.unwrap()@ == *self@->right,
    {
        match &self.right {
            None => None,
            Some(node) => {
                proof {
                    lemma_some_is_fork(self.right);
                }
                Some(&**node)
            },
        }
    }

    /// A node with no subtrees.
    pub(crate) fn leaf(value: i32) -> (node: Node)
        ensures
            node@ == Shape::leaf(value as int),
    {
        Node { value, left: None, right: None }
    }

    /// Hangs `value` below this node as a new leaf, left of every greater
    /// value on its way down and right of every other.
    pub(crate) fn add_to(&mut self, value: i32)
        ensures
            final(self)@ == old(self)@.insert(value as int),
        decreases *old(self),
    {
        if value < self.value {
            match &mut self.left {
                None => {
                    self.left = Some(Box::new(Node::leaf(value)));
                },
                Some(child) => {
                    child.add_to(value);
                },
            }
        } else {
            match &mut self.right {
                None => {
                    self.right = Some(Box::new(Node::leaf(value)));
                },
                Some(child) => {
                    child.add_to(value);
                },
            }
            assert(link_shape(self.right) == link_shape(old(self).right).insert(value as int));
        }
    }

    /// The value at the end of the right spine below and including `node`.
    pub(crate) fn max(node: &Node) -> (m: i32)
        ensures
            m == node@.rightmost(),
        decreases node,
    {
        match &node.right {
            None => node.value,
            Some(child) => Node::max(child),
        }
    }

    /// The value at the end of the left spine below and including `node`.
    pub(crate) fn get_min(node: &Node) -> (m: i32)
        ensures
            m == node@.leftmost(),
        decreases node,
    {
        match &node.left {
            None => node.value,
            Some(child) => Node::get_min(child),
        }
    }

    /// The number of levels from `node` down to its deepest leaf.
    pub(crate) fn depth_of(node: &Node) -> (d: i32)
        requires
            node@.height() <= i32::MAX,
        ensures
            d == node@.height(),
        decreases node,
    {
        let ldepth: i32 = match &node.left {
            None => 0,
            Some(child) => Node::depth_of(child),
        };
        let rdepth: i32 = match &node.right {
            None => 0,
            Some(child) => Node::depth_of(child),
        };
        assert(ldepth == link_shape(node.left).height());
        assert(rdepth == link_shape(node.right).height());
        if ldepth > rdepth {
            ldepth + 1
        } else {
            rdepth + 1
        }
    }

    /// A copy of the first node with `value` that the search meets on its
    /// way down from `node`, with all that hangs below it.
    pub(crate) fn find(node: &Node, value: i32) -> (found: Option<Node>)
        ensures
            found is Some <==> node@.lookup(value as int) is Fork,
            found is Some ==> found.unwrap()@ == node@.lookup(value as int),
        decreases node,
    {
        if node.value == value {
            Some(node.clone())
        } else if node.value < value {
            assert(node@.lookup(value as int) == link_shape(node.right).lookup(value as int));
            match &node.right {
                None => None,
                Some(child) => Node::find(child, value),
            }
        } else {
            assert(node@.lookup(value as int) == link_shape(node.left).lookup(value as int));
            match &node.left {
                None => None,
                Some(child) => Node::find(child, value),
            }
        }
    }

    /// Takes out of the subtree in `link` the first node with `value` that
    /// the search meets. A node with one subtree gives way to it; a node with
    /// two takes over the smallest value of its right subtree, from which that
    /// value is then removed.
    pub(crate) fn remove(link: &mut Option<Box<Node>>, value: i32)
        ensures
            link_shape(*final(link)) == link_shape(*old(link)).remove(value as int),
        decreases *old(link),
    {
        match link {
            None => {},
            Some(node) => {
                if value < node.value {
                    Node::remove(&mut node.left, value);
                } else if value > node.value {
                    Node::remove(&mut node.right, value);
                } else if node.left.is_none() {
                    *link = node.right.take();
                } else if node.right.is_none() {
                    *link = node.left.take();
                } else {
                    let successor: i32 = match &node.right {
                        None => value,
                        Some(child) => Node::get_min(child),
                    };
                    proof {
                        lemma_some_is_fork(node.left);
                        lemma_some_is_fork(node.right);
                    }
                    node.value = successor;
                    Node::remove(&mut node.right, successor);
                }
            },
        }
    }

    /// Writes the values of `node` and of all below it into `strs`, each on
    /// the row of its level, and says whether every one of them ended within
    /// its row. Nothing is written for a value that does not, nor after it.
    pub(crate) fn print(
        node: &Node,
        strs: &mut Vec<Vec<char>>,
        depth: usize,
        btree_depth: usize,
        cur_wide: usize,
        Ghost(width): Ghost<nat>,
    ) -> (done: bool)
        requires
            depth + node@.height() <= btree_depth,
            1 <= cur_wide < pow2((depth + 1) as nat),
            2 * pow2(btree_depth as nat) <= usize::MAX,
            uniform(grid(old(strs)@), btree_depth as nat, width),
        ensures
            uniform(grid(final(strs)@), btree_depth as nat, width),
            done == node@.fits(depth as nat, cur_wide as nat, btree_depth as nat, width),
            done ==> grid(final(strs)@) == node@.paint(
                grid(old(strs)@),
                depth as nat,
                cur_wide as nat,
                btree_depth as nat,
            ),
        decreases node,
    {
        let value_to_copy = decimal_text(node.value);
        let ghost below_left = link_shape(node.left);
        let ghost below_right = link_shape(node.right);
        proof {
            lemma_position_bound(btree_depth as nat, depth as nat, cur_wide as nat);
            assert(node@.height() > below_left.height());
            assert(node@.height() > below_right.height());
            assert(node@.fits(depth as nat, cur_wide as nat, btree_depth as nat, width) == {
                &&& position(btree_depth as nat, depth as nat, cur_wide as nat)
                    + value_to_copy@.len() <= width
                &&& below_left.fits(
                    (depth + 1) as nat,
                    (2 * cur_wide - 1) as nat,
                    btree_depth as nat,
                    width,
                )
                &&& below_right.fits(
                    (depth + 1) as nat,
                    (2 * cur_wide + 1) as nat,
                    btree_depth as nat,
                    width,
                )
            });
        }
        let cur_pos = match column_of(btree_depth, depth, cur_wide) {
            None => {
                return false;
            },
            Some(at) => at,
        };
        let ghost before = grid(strs@);
        assert(strs@[depth as int]@ == before[depth as int]);
        let row_len = strs[depth].len();
        if cur_pos > row_len || value_to_copy.len() > row_len - cur_pos {
            return false;
        }
        write_at(&mut strs[depth], cur_pos, &value_to_copy);
        let ghost here = grid(strs@);
        assert(here =~= before.update(
            depth as int,
            stamp(before[depth as int], cur_pos as int, value_to_copy@),
        ));
        match &node.left {
            None => {},
            Some(child) => {
                proof {
                    lemma_some_is_fork(node.left);
                    lemma_index_room(depth as nat, btree_depth as nat);
                }
                let left_wide = cur_wide * 2 - 1;
                if !Node::print(child, strs, depth + 1, btree_depth, left_wide, Ghost(width)) {
                    return false;
                }
            },
        }
        let ghost with_left = grid(strs@);
        assert(with_left == link_shape(node.left).paint(
            here,
            (depth + 1) as nat,
            (2 * cur_wide - 1) as nat,
            btree_depth as nat,
        ));
        match &node.right {
            None => {},
            Some(child) => {
                proof {
                    lemma_some_is_fork(node.right);
                    lemma_index_room(depth as nat, btree_depth as nat);
                }
                let right_wide = cur_wide * 2 + 1;
                if !Node::print(child, strs, depth + 1, btree_depth, right_wide, Ghost(width)) {
                    return false;
                }
            },
        }
        assert(grid(strs@) == link_shape(node.right).paint(
            with_left,
            (depth + 1) as nat,
            (2 * cur_wide + 1) as nat,
            btree_depth as nat,
        ));
        true
    }
}

/// A copy of what `link` holds, node by node.
fn copy_of(link: &Option<Box<Node>>) -> (copy: Option<Box<Node>>)
    ensures
        copy == *link,
    decreases link,
{
    match link {
        None => None,
        Some(node) => Some(
            Box::new(
                Node { value: node.value, left: copy_of(&node.left), right: copy_of(&node.right) },
            ),
        ),
    }
}

impl Clone for Node {
    /// A copy of the node with all that hangs below it.
    fn clone(&self) -> (copy: Self)
        ensures
            copy == *self,
    {
        Node { value: self.value, left: copy_of(&self.left), right: copy_of(&self.right) }
    }
}

} // verus!
