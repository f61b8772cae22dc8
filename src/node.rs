use vstd::prelude::*;
use crate::geometry::{Point, Rect, Sphere};

verus! {

/// What a node holds: point indices (a leaf) or child node indices.
pub enum Data {
    Points(Vec<usize>),
    Nodes(Vec<usize>),
}

/// A node of the arena with its bounding box and bounding ball.
pub struct Node {
    pub rect: Rect,
    pub sphere: Sphere,
    pub data: Data,
    pub height: usize,
    /// Arena index of the parent; `usize::MAX` at the root.
    pub parent_index: usize,
}

impl Node {
    pub open spec fn is_leaf_spec(&self) -> bool {
        self.data is Points
    }

    /// The indices the node holds: its points (a leaf) or its children.
    pub open spec fn entries(&self) -> Seq<usize> {
        match self.data {
            Data::Points(v) => v@,
            Data::Nodes(v) => v@,
        }
    }

    pub fn new(rect: Rect, sphere: Sphere, data: Data, height: usize) -> (r: Node)
        ensures
            r.rect == rect,
            r.sphere == sphere,
            r.data == data,
            r.height == height,
            r.parent_index == usize::MAX,
    {
        Node { rect, sphere, data, height, parent_index: usize::MAX }
    }

    /// An interior node over the given children; its shapes are empty until reshaped.
    pub fn new_node(children_indices: Vec<usize>, height: usize) -> (r: Node)
        ensures
            r.data == Data::Nodes(children_indices),
            r.height == height,
            r.parent_index == usize::MAX,
            r.rect.low@.len() == 0 && r.rect.high@.len() == 0,
    {
        let empty = Point::with_coords(Vec::new());
        let rect = Rect::from_point(&empty);
        let sphere = Sphere::from_point(&empty);
        Node::new(rect, sphere, Data::Nodes(children_indices), height)
    }

    /// A leaf over the given points, at height 1; its shapes are empty until reshaped.
    pub fn new_leaf(points_indices: Vec<usize>) -> (r: Node)
        ensures
            r.data == Data::Points(points_indices),
            r.height == 1,
            r.parent_index == usize::MAX,
            r.rect.low@.len() == 0 && r.rect.high@.len() == 0,
    {
        let empty = Point::with_coords(Vec::new());
        let rect = Rect::from_point(&empty);
        let sphere = Sphere::from_point(&empty);
        Node::new(rect, sphere, Data::Points(points_indices), 1)
    }

    pub fn is_leaf(&self) -> (r: bool)
        ensures
            r == self.is_leaf_spec(),
    {
        match &self.data {
            Data::Points(_) => true,
            Data::Nodes(_) => false,
        }
    }

    /// The child indices of an interior node.
    pub fn children(&self) -> (r: &Vec<usize>)
        requires
            !self.is_leaf_spec(),
        ensures
            r@ == self.entries(),
    {
        match &self.data {
            Data::Nodes(nodes) => nodes,
            Data::Points(points) => points,
        }
    }

    /// The point indices of a leaf.
    pub fn points(&self) -> (r: &Vec<usize>)
        requires
            self.is_leaf_spec(),
        ensures
            r@ == self.entries(),
    {
        match &self.data {
            Data::Points(points) => points,
            Data::Nodes(nodes) => nodes,
        }
    }

    /// Replaces the point list of a leaf; an interior node is left as it is.
    pub fn set_points(&mut self, points: Vec<usize>)
        ensures
            old(self).is_leaf_spec() ==> final(self).data == Data::Points(points),
            !old(self).is_leaf_spec() ==> final(self).data == old(self).data,
            final(self).rect == old(self).rect,
            final(self).sphere == old(self).sphere,
            final(self).height == old(self).height,
            final(self).parent_index == old(self).parent_index,
    {
        if self.is_leaf() {
            self.data = Data::Points(points);
        }
    }

    /// The number of entries: points of a leaf, children of an interior node.
    pub fn immed_children(&self) -> (r: usize)
        ensures
            r == self.entries().len(),
    {
        match &self.data {
            Data::Points(pts) => pts.len(),
            Data::Nodes(children) => children.len(),
        }
    }
}

} // verus!
