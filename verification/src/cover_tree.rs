//! A cover tree: a leveled index over the points of a metric space.
//!
//! The nodes live in an arena and name each other by index. A node of level
//! `l` stands for its point at every level from `l` downward; its children
//! are the nodes that first appear at some level below `l`.
//!
//! Distances are whole numbers. A metric with fractions is used by fixing a
//! unit and rounding every distance up to it, which keeps the triangle
//! inequality. Since two different points are at least one unit apart, no
//! point stands below level -1, and every descent through the levels ends.
use crate::scale::{cover_level, within_scale, MAX_LEVEL, MIN_LEVEL};
use vstd::prelude::*;

mod descend;
mod insert;
mod levels;
pub mod laws;
mod nearest;
mod remove;
mod validate;

verus! {

/// A point type with a whole-number metric.
///
/// An implementation states the metric as `dist`, computes it in `distance`,
/// and proves that it is a metric.
pub trait Distance: Sized {
    /// The distance between two points.
    spec fn dist(&self, other: &Self) -> nat;

    /// Computes the distance between two points.
    fn distance(&self, other: &Self) -> (d: u64)
        ensures
            d == self.dist(other),
    ;

    /// Two points are at distance zero exactly when they are equal.
    proof fn lemma_identity(a: &Self, b: &Self)
        ensures
            a.dist(b) == 0 <==> *a == *b,
    ;

    /// The distance does not depend on the order of the two points.
    proof fn lemma_symmetry(a: &Self, b: &Self)
        ensures
            a.dist(b) == b.dist(a),
    ;

    /// The direct way is no longer than a detour.
    proof fn lemma_triangle(a: &Self, b: &Self, c: &Self)
        ensures
            a.dist(c) <= a.dist(b) + b.dist(c),
    ;
}

impl Distance for u32 {
    open spec fn dist(&self, other: &Self) -> nat {
        if *self >= *other {
            (*self - *other) as nat
        } else {
            (*other - *self) as nat
        }
    }

    fn distance(&self, other: &Self) -> (d: u64) {
        if *self >= *other {
            (*self - *other) as u64
        } else {
            (*other - *self) as u64
        }
    }

    proof fn lemma_identity(a: &Self, b: &Self) {
    }

    proof fn lemma_symmetry(a: &Self, b: &Self) {
    }

    proof fn lemma_triangle(a: &Self, b: &Self, c: &Self) {
    }
}

impl Distance for i32 {
    open spec fn dist(&self, other: &Self) -> nat {
        if *self >= *other {
            (*self - *other) as nat
        } else {
            (*other - *self) as nat
        }
    }

    fn distance(&self, other: &Self) -> (d: u64) {
        if *self >= *other {
            (*self as i64 - *other as i64) as u64
        } else {
            (*other as i64 - *self as i64) as u64
        }
    }

    proof fn lemma_identity(a: &Self, b: &Self) {
    }

    proof fn lemma_symmetry(a: &Self, b: &Self) {
    }

    proof fn lemma_triangle(a: &Self, b: &Self, c: &Self) {
    }
}

/// Why an insertion was refused.
#[derive(Clone, Copy, PartialEq, Eq, Structural, Debug)]
pub enum InsertError {
    /// The point is already in the tree.
    DuplicatePoint,
}

/// Why a removal was refused.
#[derive(Clone, Copy, PartialEq, Eq, Structural, Debug)]
pub enum RemoveError {
    /// The tree holds no point at all.
    EmptyTree,
    /// The tree holds points, but not this one.
    NotFound,
}

/// Which rule of the cover tree a pair of points breaks.
#[derive(Clone, Copy, PartialEq, Eq, Structural, Debug)]
pub enum ViolationKind {
    /// A child lies farther from its parent than the scale of the level
    /// above its own.
    Covering,
    /// Two points that stand at the same level lie within the scale of
    /// that level.
    Separation,
}

/// A pair of points that breaks a rule of the cover tree: for `Covering`
/// the parent and its child, for `Separation` two points of one level.
pub struct ViolationReport<'a, T> {
    /// The rule that is broken.
    pub kind: ViolationKind,
    /// The parent, or the first point of the pair.
    pub first: &'a T,
    /// The child, or the second point of the pair.
    pub second: &'a T,
    /// The distance between the two points.
    pub distance: u64,
    /// The level whose scale `2^level` the distance is held against.
    pub level: i32,
}

impl<'a, T: Distance> ViolationReport<'a, T> {
    /// The report is true of its two points: their distance is as stated,
    /// and it exceeds the scale where the points must be covered, or stays
    /// within it where they must be separated.
    pub open spec fn violated(&self) -> bool {
        &&& self.distance == self.first.dist(self.second)
        &&& match self.kind {
            ViolationKind::Covering => !within_scale(self.distance as nat, self.level as int),
            ViolationKind::Separation => within_scale(self.distance as nat, self.level as int),
        }
    }
}

/// One point of the tree, placed at one level.
pub struct CoverTreeNode<T> {
    point: T,
    level: i32,
    ancestor: Option<usize>,
    children: Vec<usize>,
    live: bool,
}

impl<T> CoverTreeNode<T> {
    /// A node for `point` at `level`, below `parent` if there is one, and
    /// without children.
    fn new(point: T, level: i32, parent: Option<usize>) -> (node: Self)
        ensures
            node.point == point,
            node.level == level,
            node.ancestor == parent,
            node.children@ == Seq::<usize>::empty(),
            node.live,
    {
        CoverTreeNode { point, level, ancestor: parent, children: Vec::new(), live: true }
    }
}

/// A walk over a node and then its children, by their numbers in the arena.
pub struct CoverTreeNodeChildrenIter<'a> {
    parent_as_child_node: Option<usize>,
    non_parent_children: &'a Vec<usize>,
    position: usize,
}

impl<'a> CoverTreeNodeChildrenIter<'a> {
    /// What the walk has yet to yield.
    pub closed spec fn remaining(&self) -> Seq<usize> {
        let rest = self.non_parent_children@.subrange(
            self.position as int,
            self.non_parent_children@.len() as int,
        );
        match self.parent_as_child_node {
            Some(parent) => seq![parent] + rest,
            None => rest,
        }
    }

    /// The position is within the list of children.
    pub closed spec fn wf(&self) -> bool {
        self.position <= self.non_parent_children@.len()
    }

    /// Yields the next node of the walk: first the node itself, then its
    /// children in their order.
    pub fn next(&mut self) -> (res: Option<usize>)
        requires
            old(self).wf(),
        ensures
            final(self).wf(),
            match res {
                Some(id) => old(self).remaining() == seq![id] + final(self).remaining(),
                None => old(self).remaining().len() == 0 && final(self).remaining().len() == 0,
            },
    {
        match self.parent_as_child_node {
            Some(parent) => {
                self.parent_as_child_node = None;
                Some(parent)
            },
            None => {
                if self.position < self.non_parent_children.len() {
                    let id = self.non_parent_children[self.position];
                    self.position = self.position + 1;
                    proof {
                        assert(old(self).remaining() =~= seq![id] + self.remaining());
                    }
                    Some(id)
                } else {
                    None
                }
            },
        }
    }
}

/// A cover tree over the points of type `T`.
pub struct CoverTree<T> {
    nodes: Vec<CoverTreeNode<T>>,
    root: Option<usize>,
    free: Vec<usize>,
}

impl<T: Distance> CoverTree<T> {
    /// Whether slot `i` of the arena holds a node of the tree.
    pub closed spec fn is_node(&self, i: usize) -> bool {
        i < self.nodes@.len() && self.nodes@[i as int].live
    }

    /// The point of node `i`.
    pub closed spec fn point(&self, i: usize) -> T {
        self.nodes@[i as int].point
    }

    /// The level of node `i`.
    pub closed spec fn level(&self, i: usize) -> int {
        self.nodes@[i as int].level as int
    }

    /// The parent of node `i`; the root has none.
    pub closed spec fn parent(&self, i: usize) -> Option<usize> {
        self.nodes@[i as int].ancestor
    }

    /// The children of node `i`, in the order in which they were attached.
    pub closed spec fn children(&self, i: usize) -> Seq<usize> {
        self.nodes@[i as int].children@
    }

    /// The root, if the tree holds a point.
    pub closed spec fn root_node(&self) -> Option<usize> {
        self.root
    }

    /// The distance between the points of nodes `a` and `b`.
    pub closed spec fn node_dist(&self, a: usize, b: usize) -> nat {
        self.nodes@[a as int].point.dist(&self.nodes@[b as int].point)
    }

    /// The points that the tree holds.
    pub closed spec fn view(&self) -> Set<T> {
        Set::new(|p: T| exists|i: usize| #[trigger] self.is_node(i) && self.nodes@[i as int].point == p)
    }

    spec fn is_child_of(&self, c: usize, p: usize) -> bool {
        self.is_node(c) && self.nodes@[c as int].ancestor == Some(p)
    }

    spec fn node_linked(&self, i: usize) -> bool {
        let n = self.nodes@[i as int];
        &&& MIN_LEVEL <= n.level <= MAX_LEVEL
        &&& n.children@.no_duplicates()
        &&& forall|k: int|
            0 <= k < n.children@.len() ==> self.is_child_of(#[trigger] n.children@[k], i)
        &&& match n.ancestor {
            None => self.root == Some(i),
            Some(p) => {
                &&& self.root != Some(i)
                &&& self.is_node(p)
                &&& self.nodes@[p as int].children@.contains(i)
                &&& n.level < self.nodes@[p as int].level
            },
        }
        &&& self.root matches Some(r) ==> (r != i ==> n.level < self.nodes@[r as int].level)
    }

    spec fn free_ok(&self) -> bool {
        &&& self.free@.no_duplicates()
        &&& forall|k: int|
            0 <= k < self.free@.len() ==> (#[trigger] self.free@[k]) < self.nodes@.len()
                && !self.nodes@[self.free@[k] as int].live
    }

    /// The arena is a tree: the links agree with each other, every node but
    /// the root hangs below a node of a higher level, and the root has the
    /// highest level of all.
    pub closed spec fn linked(&self) -> bool {
        &&& self.root matches Some(r) ==> self.is_node(r)
        &&& self.root is None ==> forall|i: usize| !#[trigger] self.is_node(i)
        &&& forall|i: usize| #[trigger] self.is_node(i) ==> self.node_linked(i)
        &&& self.free_ok()
    }

    spec fn node_covered(&self, i: usize) -> bool {
        self.nodes@[i as int].ancestor matches Some(p) ==> within_scale(
            self.node_dist(p, i),
            self.nodes@[i as int].level + 1,
        )
    }

    /// Every node lies within `2^(l + 1)` of its parent, where `l` is the
    /// node's own level.
    pub closed spec fn covered(&self) -> bool {
        forall|i: usize| #[trigger] self.is_node(i) ==> self.node_covered(i)
    }

    spec fn pair_separated(&self, a: usize, b: usize) -> bool {
        !within_scale(
            self.node_dist(a, b),
            if self.nodes@[a as int].level <= self.nodes@[b as int].level {
                self.nodes@[a as int].level as int
            } else {
                self.nodes@[b as int].level as int
            },
        )
    }

    /// Any two nodes are farther apart than `2^l`, where `l` is the lower of
    /// their two levels.
    pub closed spec fn separated(&self) -> bool {
        forall|a: usize, b: usize|
            #![trigger self.is_node(a), self.is_node(b)]
            self.is_node(a) && self.is_node(b) && a != b ==> self.pair_separated(a, b)
    }

    /// The invariant of the tree.
    pub open spec fn wf(&self) -> bool {
        &&& self.linked()
        &&& self.covered()
        &&& self.separated()
    }

    /// Node `i` of `self` is a node of `new`, with the same point and the
    /// same parent and, unless it is the root, at the same level.
    pub open spec fn kept(&self, new: &Self, i: usize) -> bool {
        &&& new.is_node(i)
        &&& new.point(i) == self.point(i)
        &&& new.parent(i) == self.parent(i)
        &&& self.root_node() != Some(i) ==> new.level(i) == self.level(i)
    }

    /// `new` has the nodes of `self`, each with the same point, parent and
    /// level, and the same root.
    pub open spec fn same_shape(&self, new: &Self) -> bool {
        &&& new.root_node() == self.root_node()
        &&& forall|i: usize| #[trigger] new.is_node(i) ==> self.is_node(i)
        &&& forall|i: usize|
            #[trigger] self.is_node(i) ==> self.kept(new, i) && new.level(i) == self.level(i)
    }

    /// `new` arises from `self` by storing `p` in the new node `s`: the
    /// nodes of `self` are kept; the root, if there is one, stays the root
    /// and is raised just as far as it takes to cover `p`; the new node
    /// is the root at level 0 where there was none, and else hangs below a
    /// node of `self` that covers it, as low as it can: at no level up to
    /// its own does a node that stands there lie within that level's scale.
    pub open spec fn grown(&self, new: &Self, s: usize, p: T) -> bool {
        &&& !self.is_node(s)
        &&& new.is_node(s)
        &&& new.point(s) == p
        &&& forall|i: usize| #[trigger] self.is_node(i) ==> self.kept(new, i)
        &&& forall|i: usize| #[trigger] new.is_node(i) ==> self.is_node(i) || i == s
        &&& match self.root_node() {
            None => new.root_node() == Some(s) && new.level(s) == 0,
            Some(r) => {
                &&& new.root_node() == Some(r)
                &&& new.level(r) == (if self.level(r) >= cover_level(self.point(r).dist(&p)) {
                    self.level(r)
                } else {
                    cover_level(self.point(r).dist(&p))
                })
                &&& new.parent(s) matches Some(y) && self.is_node(y) && new.level(s) < new.level(y)
                    && within_scale(new.node_dist(y, s), new.level(s) + 1)
                &&& forall|x: usize, j: int|
                    #![trigger self.is_node(x), within_scale(new.node_dist(x, s), j)]
                    self.is_node(x) && j <= new.level(s) && j <= new.level(x) ==> !within_scale(
                        new.node_dist(x, s),
                        j,
                    )
            },
        }
    }

    /// `new` arises from `self` by taking the node `t` out: the other
    /// nodes stay, each with its point. A node that was no child of `t`
    /// keeps its parent, and its level unless it is the root; a child of
    /// `t` moves no lower. The root stays the root; where `t` was the root,
    /// one of its highest children becomes the root.
    pub open spec fn shrunk(&self, new: &Self, t: usize) -> bool {
        &&& self.is_node(t)
        &&& !new.is_node(t)
        &&& forall|i: usize| #[trigger] new.is_node(i) ==> self.is_node(i)
        &&& forall|i: usize|
            #[trigger] self.is_node(i) && i != t ==> {
                &&& new.is_node(i)
                &&& new.point(i) == self.point(i)
                &&& new.level(i) >= self.level(i)
                &&& self.parent(i) != Some(t) ==> new.parent(i) == self.parent(i)
                &&& self.parent(i) != Some(t) && new.root_node() != Some(i) ==> new.level(i)
                    == self.level(i)
            }
        &&& self.root_node() != Some(t) ==> new.root_node() == self.root_node()
        &&& self.root_node() == Some(t) ==> match new.root_node() {
            None => forall|i: usize| #[trigger] self.is_node(i) ==> i == t,
            Some(c) => {
                &&& self.is_node(c)
                &&& self.parent(c) == Some(t)
                &&& forall|i: usize|
                    #[trigger] self.is_node(i) && self.parent(i) == Some(t) ==> self.level(i)
                        <= self.level(c)
            },
        }
    }

    /// In `new`, every child that node `t` had in `self` is the root or
    /// hangs below a node that covers it, as low as it can without going
    /// below its old level: at no level above the old one up to its own
    /// does a node that stands there lie within that level's scale.
    pub open spec fn rehomed(&self, new: &Self, t: usize) -> bool {
        forall|c: usize|
            #[trigger] self.is_node(c) && self.parent(c) == Some(t) && new.root_node() != Some(c)
                ==> {
                &&& new.parent(c) matches Some(y) && new.is_node(y) && new.level(c) < new.level(y)
                    && within_scale(new.node_dist(y, c), new.level(c) + 1)
                &&& forall|x: usize, j: int|
                    #![trigger new.is_node(x), within_scale(new.node_dist(x, c), j)]
                    new.is_node(x) && x != c && self.level(c) < j <= new.level(c) && j
                        <= new.level(x) ==> !within_scale(new.node_dist(x, c), j)
            }
    }

    /// A walk over node `id` and its children; nothing if `id` is no node.
    pub fn family(&self, id: usize) -> (res: Option<CoverTreeNodeChildrenIter<'_>>)
        ensures
            match res {
                Some(walk) => self.is_node(id) && walk.wf() && walk.remaining() == seq![id]
                    + self.children(id),
                None => !self.is_node(id),
            },
    {
        if id < self.nodes.len() && self.nodes[id].live {
            let walk = CoverTreeNodeChildrenIter {
                parent_as_child_node: Some(id),
                non_parent_children: &self.nodes[id].children,
                position: 0,
            };
            proof {
                let kids = self.nodes@[id as int].children@;
                assert(kids.subrange(0, kids.len() as int) =~= kids);
            }
            Some(walk)
        } else {
            None
        }
    }

    /// An empty tree.
    pub fn new() -> (tree: Self)
        ensures
            tree.wf(),
            tree@ == Set::<T>::empty(),
    {
        let tree = CoverTree { nodes: Vec::new(), root: None, free: Vec::new() };
        assert(tree@ =~= Set::<T>::empty());
        tree
    }

    /// Whether the tree holds no point.
    pub fn is_empty(&self) -> (b: bool)
        requires
            self.wf(),
        ensures
            b <==> self@ == Set::<T>::empty(),
    {
        proof {
            match self.root {
                Some(r) => {
                    assert(self.is_node(r));
                    assert(self@.contains(self.nodes@[r as int].point));
                },
                None => {
                    assert(self@ =~= Set::<T>::empty());
                },
            }
        }
        self.root.is_none()
    }
}

} // verus!
