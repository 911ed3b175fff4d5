use vstd::prelude::*;
use crate::geometry::{Aabb, Point};
use crate::item::Item;

verus! {

/// One cell of the tree. Nodes live in the tree's arena and refer to each other by index:
/// a branch owns the eight consecutive slots that start at `children`, and every node but
/// the root names the slot of its parent.
pub struct Node {
    pub bb: Aabb,
    pub center: Point,
    pub leafs: Vec<Item>,
    pub children: Option<usize>,
    pub parent: Option<usize>,
}

impl Node {
    pub fn new(bb: Aabb, parent: Option<usize>) -> (r: Node)
        requires
            bb.wf(),
        ensures
            r.bb == bb,
            r.center == bb.spec_center(),
            r.leafs@.len() == 0,
            r.children.is_none(),
            r.parent == parent,
    {
        Node { bb, center: bb.center(), leafs: Vec::new(), children: None, parent }
    }

    pub open spec fn spec_is_empty(&self) -> bool {
        self.leafs@.len() == 0 && self.children.is_none()
    }

    /// A branch has its eight children; a leaf node has none.
    pub fn is_branch(&self) -> (r: bool)
        ensures
            r == self.children.is_some(),
    {
        self.children.is_some()
    }

    /// No items of its own and no children.
    pub fn is_empty(&self) -> (r: bool)
        ensures
            r == self.spec_is_empty(),
    {
        self.leafs.len() == 0 && self.children.is_none()
    }

    /// The root takes every box; any other node only the boxes inside its own.
    pub fn can_contain(&self, other: &Aabb) -> (r: bool)
        ensures
            r == (self.parent.is_none() || self.bb.spec_contains(*other)),
    {
        if self.parent.is_none() {
            return true;
        }
        self.contains_bb(other)
    }

    pub fn contains_bb(&self, other: &Aabb) -> (r: bool)
        ensures
            r == self.bb.spec_contains(*other),
    {
        self.bb.contains(other)
    }

    /// The octant of this node that holds `bb` whole, if any.
    pub fn select_node_index(&self, bb: &Aabb) -> (r: Option<usize>)
        requires
            self.bb.wf(),
            self.center == self.bb.spec_center(),
        ensures
            r matches Some(k) ==> k < 8,
            r == (match self.bb.spec_select(*bb) {
                Some(k) => Some(k as usize),
                None => None,
            }),
    {
        self.bb.select_octant(&self.center, bb)
    }

    /// Position of the item `id` among this node's own items.
    pub fn find_leaf(&self, id: u64) -> (r: Option<usize>)
        ensures
            match r {
                Some(j) => j < self.leafs@.len() && self.leafs@[j as int].id == id,
                None => forall|j: int| 0 <= j < self.leafs@.len() ==> self.leafs@[j].id != id,
            },
    {
        let mut j: usize = 0;
        while j < self.leafs.len()
            invariant
                j <= self.leafs@.len(),
                forall|i: int| 0 <= i < j ==> self.leafs@[i].id != id,
            decreases self.leafs@.len() - j,
        {
            if self.leafs[j].id == id {
                return Some(j);
            }
            j = j + 1;
        }
        None
    }
}

} // verus!
