//! Jump records, the classification of major nodes, and raw cursors.

use vstd::prelude::*;

verus! {

/// What stands at the end of a linear run: a value, a branch point, or both.
#[derive(Debug, Clone, Copy, PartialEq, Eq, Structural)]
#[allow(inconsistent_fields)]
pub enum MajorNode {
    /// The run ends in a node that carries a value and has children.
    LeafJump { leaf_index: usize, child_jump_index: usize },
    /// The run ends in a node without children; it may carry a value.
    Leaf { leaf_index: Option<usize> },
    /// The run ends in a node that has children and no value.
    Jump { child_jump_index: usize },
}

impl MajorNode {
    /// The index of the first child record, if the major node has children.
    pub open spec fn child(self) -> Option<int> {
        match self {
            MajorNode::LeafJump { child_jump_index, .. } => Some(child_jump_index as int),
            MajorNode::Leaf { .. } => None,
            MajorNode::Jump { child_jump_index } => Some(child_jump_index as int),
        }
    }

    /// The rank of the value in the value store, if the major node carries one.
    pub open spec fn leaf(self) -> Option<int> {
        match self {
            MajorNode::LeafJump { leaf_index, .. } => Some(leaf_index as int),
            MajorNode::Leaf { leaf_index: Some(r) } => Some(r as int),
            MajorNode::Leaf { leaf_index: None } => None,
            MajorNode::Jump { .. } => None,
        }
    }

    /// Whether the major node has children.
    pub fn is_jump(self) -> (b: bool)
        ensures
            b == self.child().is_some(),
    {
        match self {
            MajorNode::LeafJump { .. } => true,
            MajorNode::Jump { .. } => true,
            MajorNode::Leaf { .. } => false,
        }
    }

    /// The index of the first child record, if any.
    pub fn child_index(self) -> (c: Option<usize>)
        ensures
            c.is_some() == self.child().is_some(),
            c.is_some() ==> c.unwrap() as int == self.child().unwrap(),
    {
        match self {
            MajorNode::LeafJump { child_jump_index, .. } => Some(child_jump_index),
            MajorNode::Jump { child_jump_index } => Some(child_jump_index),
            MajorNode::Leaf { .. } => None,
        }
    }

    /// The rank of the value, if any.
    pub fn leaf_index(self) -> (r: Option<usize>)
        ensures
            r.is_some() == self.leaf().is_some(),
            r.is_some() ==> r.unwrap() as int == self.leaf().unwrap(),
    {
        match self {
            MajorNode::LeafJump { leaf_index, .. } => Some(leaf_index),
            MajorNode::Leaf { leaf_index } => leaf_index,
            MajorNode::Jump { .. } => None,
        }
    }
}

/// One record of the jump table: a linear run of nodes and what ends it.
#[derive(Debug, Clone, Copy, PartialEq, Eq, Structural)]
pub struct Jump {
    /// Index of the record that owns this branch; `-1` for the root record.
    pub parent_jump_index: isize,
    /// Position of the first node of the run; `-1` for the root record.
    pub jump_to_node: isize,
    /// Number of further nodes of the run after the first.
    pub next_major_node_dist: usize,
    /// What the last node of the run is.
    pub next_major_node: MajorNode,
    /// Tree depth of the first node of the run.
    pub depth: isize,
}

impl Jump {
    /// Position of the first node of the run.
    pub open spec fn first(self) -> int {
        self.jump_to_node as int
    }

    /// Position of the last node of the run, the major node.
    pub open spec fn major(self) -> int {
        self.jump_to_node + self.next_major_node_dist
    }

    /// The run starts at the virtual root or later and ends below `isize::MAX`.
    pub open spec fn in_range(self) -> bool {
        -1 <= self.jump_to_node && self.major() < isize::MAX
    }

    /// Whether position `n` lies on the run.
    pub open spec fn covers(self, n: int) -> bool {
        self.first() <= n <= self.major()
    }

    /// The record of an empty trie: the virtual root alone.
    pub fn default_root() -> (j: Jump)
        ensures
            j == (Jump {
                parent_jump_index: -1isize,
                jump_to_node: -1isize,
                next_major_node_dist: 0,
                next_major_node: MajorNode::Leaf { leaf_index: None },
                depth: -1isize,
            }),
    {
        Jump {
            parent_jump_index: -1,
            jump_to_node: -1,
            next_major_node_dist: 0,
            next_major_node: MajorNode::Leaf { leaf_index: None },
            depth: -1,
        }
    }

    /// Whether `cursor`, which lies on this run, sits on its major node.
    pub fn cursor_at_next_major_node(&self, cursor: RawCursor) -> (b: bool)
        requires
            self.in_range(),
            self.covers(cursor.node_index as int),
        ensures
            b == (cursor.node_index as int == self.major()),
    {
        let cursor_dist: isize = cursor.node_index - self.jump_to_node;
        self.next_major_node_dist == cursor_dist as usize
    }

    /// Whether `cursor`, which lies on this run, has any child.
    pub fn cursor_has_children(&self, cursor: RawCursor) -> (b: bool)
        requires
            self.in_range(),
            self.covers(cursor.node_index as int),
        ensures
            b == (cursor.node_index as int != self.major()
                || self.next_major_node.child().is_some()),
    {
        let cursor_dist: isize = cursor.node_index - self.jump_to_node;
        (cursor_dist as usize) < self.next_major_node_dist || self.next_major_node.is_jump()
    }
}

/// A position in the trie: a node, the record whose run holds it, and its depth.
#[derive(Debug, Clone, Copy, PartialEq, Eq, Structural)]
pub struct RawCursor {
    /// Position in the node sequence; `-1` for the virtual root.
    pub node_index: isize,
    /// Index of the record on whose run the node lies.
    pub parent_jump_index: usize,
    /// Tree depth of the node; `-1` for the virtual root.
    pub depth: isize,
}

impl RawCursor {
    /// The cursor on the virtual root.
    pub fn root() -> (c: RawCursor)
        ensures
            c == (RawCursor { node_index: -1isize, parent_jump_index: 0, depth: -1isize }),
    {
        RawCursor { node_index: -1, parent_jump_index: 0, depth: -1 }
    }

    /// Tree depth of the node under the cursor.
    pub fn depth(self) -> (d: isize)
        ensures
            d == self.depth,
    {
        self.depth
    }
}

} // verus!
