//! What holds of every cover tree, stated over its nodes.
use crate::cover_tree::{CoverTree, Distance};
use crate::scale::{lemma_within_scale_monotonic, within_scale, MAX_LEVEL, MIN_LEVEL};
use vstd::prelude::*;

verus! {

impl<T: Distance> CoverTree<T> {
    /// Covering: a child lies within `2^l` of its parent, where `l` is the
    /// parent's level; it even lies within the scale of the level just
    /// above its own.
    pub proof fn lemma_covering(&self, parent: usize, child: usize)
        requires
            self.wf(),
            self.is_node(child),
            self.parent(child) == Some(parent),
        ensures
            self.is_node(parent),
            self.level(child) < self.level(parent),
            within_scale(self.node_dist(parent, child), self.level(child) + 1),
            within_scale(self.node_dist(parent, child), self.level(parent)),
    {
        assert(self.node_linked(child));
        assert(self.node_covered(child));
        lemma_within_scale_monotonic(
            self.node_dist(parent, child),
            self.level(child) + 1,
            self.level(parent),
        );
    }

    /// Separation: two different nodes that both stand at level `l`, being
    /// of that level or higher, lie farther apart than `2^l`.
    pub proof fn lemma_separation(&self, a: usize, b: usize, l: int)
        requires
            self.wf(),
            self.is_node(a),
            self.is_node(b),
            a != b,
            l <= self.level(a),
            l <= self.level(b),
        ensures
            !within_scale(self.node_dist(a, b), l),
    {
        assert(self.pair_separated(a, b));
        let low = if self.level(a) <= self.level(b) {
            self.level(a)
        } else {
            self.level(b)
        };
        if within_scale(self.node_dist(a, b), l) {
            lemma_within_scale_monotonic(self.node_dist(a, b), l, low);
        }
    }

    /// Nesting: a node that stands at level `l`, below the root's level,
    /// stands at level `l + 1` too, or its parent does.
    pub proof fn lemma_nesting(&self, x: usize, l: int)
        requires
            self.wf(),
            self.is_node(x),
            l <= self.level(x),
            self.root_node() matches Some(r) && l < self.level(r),
        ensures
            l + 1 <= self.level(x) || (self.parent(x) matches Some(p) && self.is_node(p) && l + 1
                <= self.level(p)),
    {
        assert(self.node_linked(x));
    }

    /// Every node but the root has a parent, which is a node of a higher
    /// level; the root has none, and no node is higher than the root.
    pub proof fn lemma_parents(&self, x: usize)
        requires
            self.wf(),
            self.is_node(x),
        ensures
            MIN_LEVEL <= self.level(x) <= MAX_LEVEL,
            self.root_node() matches Some(r) && self.is_node(r) && self.level(x) <= self.level(r),
            self.root_node() == Some(x) <==> self.parent(x) is None,
            self.parent(x) matches Some(p) ==> self.is_node(p) && self.level(x) < self.level(p),
    {
        assert(self.node_linked(x));
    }

    /// The children of a node are the nodes whose parent it is, each listed
    /// once.
    pub proof fn lemma_children(&self, parent: usize, child: usize)
        requires
            self.wf(),
            self.is_node(parent),
        ensures
            self.children(parent).contains(child) <==> self.is_node(child) && self.parent(child)
                == Some(parent),
            self.children(parent).no_duplicates(),
    {
        assert(self.node_linked(parent));
        let kids = self.children(parent);
        if kids.contains(child) {
            let k = choose|k: int| 0 <= k < kids.len() && kids[k] == child;
            assert(self.is_child_of(kids[k], parent));
        }
        if self.is_node(child) && self.parent(child) == Some(parent) {
            assert(self.node_linked(child));
        }
    }

    /// No point is stored twice: two different nodes hold different points.
    pub proof fn lemma_no_duplicates(&self, a: usize, b: usize)
        requires
            self.wf(),
            self.is_node(a),
            self.is_node(b),
            a != b,
        ensures
            self.point(a) != self.point(b),
    {
        assert(self.pair_separated(a, b));
        T::lemma_identity(&self.point(a), &self.point(b));
    }

    /// The tree holds exactly the points of its nodes.
    pub proof fn lemma_points(&self, p: T)
        ensures
            self@.contains(p) <==> exists|x: usize| #[trigger] self.is_node(x) && self.point(x) == p,
    {
        if self@.contains(p) {
            let x = choose|x: usize| #[trigger] self.is_node(x) && self.nodes@[x as int].point == p;
            assert(self.is_node(x) && self.point(x) == p);
        }
        if exists|x: usize| #[trigger] self.is_node(x) && self.point(x) == p {
            let x = choose|x: usize| #[trigger] self.is_node(x) && self.point(x) == p;
            assert(self.is_node(x) && self.nodes@[x as int].point == p);
        }
    }

    /// The tree holds finitely many points.
    pub proof fn lemma_finite(&self)
        ensures
            self@.finite(),
    {
        let points = Seq::new(self.nodes@.len(), |i: int| self.nodes@[i].point);
        vstd::seq_lib::seq_to_set_is_finite(points);
        assert(self@.subset_of(points.to_set())) by {
            assert forall|p: T| self@.contains(p) implies points.to_set().contains(p) by {
                let x = choose|x: usize| #[trigger]
                    self.is_node(x) && self.nodes@[x as int].point == p;
                assert(points[x as int] == p);
            }
        }
        vstd::set_lib::lemma_len_subset(self@, points.to_set());
    }

    /// A point that was removed is none of the points that the tree still
    /// holds, so a search cannot return it.
    pub proof fn lemma_removed_is_absent(before: Set<T>, after: &Self, target: T, found: T)
        requires
            after@ == before.remove(target),
            after@.contains(found),
        ensures
            found != target,
            before.contains(found),
    {
    }
}

} // verus!
