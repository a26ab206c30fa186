//! Insertion: raise the root, descend to the candidates for a parent, and
//! attach the point as deep as the covering rule allows.
use crate::cover_tree::descend::lemma_near_scale_monotonic;
use crate::cover_tree::{CoverTree, CoverTreeNode, Distance, InsertError};
use crate::scale::{
    cover_level, cover_level_of, is_within_scale, lemma_positive_below_level,
    lemma_positive_within_level, lemma_within_implies_below_next, lemma_within_scale_monotonic,
    within_scale, MAX_LEVEL, MIN_LEVEL,
};
use vstd::prelude::*;

verus! {

impl<T: Distance> CoverTree<T> {
    /// No node of level `level` or higher lies within `2^level` of `p`.
    pub(super) open spec fn clear_at(&self, level: int, p: T) -> bool {
        forall|x: usize| #[trigger]
            self.is_node(x) && self.nodes@[x as int].level >= level ==> !within_scale(
                self.nodes@[x as int].point.dist(&p),
                level,
            )
    }

    /// Stores `node` in a slot of the arena that holds no node.
    fn allocate(&mut self, node: CoverTreeNode<T>) -> (slot: usize)
        requires
            old(self).free_ok(),
        ensures
            final(self).free_ok(),
            final(self).root == old(self).root,
            slot < final(self).nodes@.len(),
            final(self).nodes@[slot as int] == node,
            slot < old(self).nodes@.len() ==> !old(self).nodes@[slot as int].live,
            final(self).nodes@.len() >= old(self).nodes@.len(),
            slot >= old(self).nodes@.len() ==> final(self).nodes@.len() == old(self).nodes@.len() + 1,
            slot < old(self).nodes@.len() ==> final(self).nodes@.len() == old(self).nodes@.len(),
            forall|i: int|
                0 <= i < old(self).nodes@.len() && i != slot ==> final(self).nodes@[i] == old(
                    self,
                ).nodes@[i],
            node.live ==> forall|k: int|
                0 <= k < final(self).free@.len() ==> #[trigger] final(self).free@[k] != slot,
    {
        match self.free.pop() {
            Some(slot) => {
                proof {
                    let before = old(self).free@;
                    assert(before[before.len() - 1] == slot);
                    assert forall|k: int| 0 <= k < self.free@.len() implies #[trigger] self.free@[k]
                        != slot by {
                        assert(before[k] == self.free@[k]);
                    }
                }
                self.nodes[slot] = node;
                slot
            },
            None => {
                self.nodes.push(node);
                self.nodes.len() - 1
            },
        }
    }

    /// How the arena `new` arises from `self` when the point `p` is stored
    /// in the unused slot `slot` as a child of `parent`.
    spec fn attached(&self, new: &Self, slot: usize, parent: usize, p: T, level: int) -> bool {
        &&& self.is_node(parent)
        &&& !self.is_node(slot)
        &&& new.root == self.root
        &&& new.free_ok()
        &&& slot < new.nodes@.len()
        &&& new.nodes@.len() >= self.nodes@.len()
        &&& slot < self.nodes@.len() ==> new.nodes@.len() == self.nodes@.len()
        &&& slot >= self.nodes@.len() ==> new.nodes@.len() == self.nodes@.len() + 1
        &&& forall|i: int|
            0 <= i < self.nodes@.len() && i != slot && i != parent ==> #[trigger] new.nodes@[i]
                == self.nodes@[i]
        &&& new.nodes@[slot as int].point == p
        &&& new.nodes@[slot as int].level == level
        &&& new.nodes@[slot as int].ancestor == Some(parent)
        &&& new.nodes@[slot as int].children@ == Seq::<usize>::empty()
        &&& new.nodes@[slot as int].live
        &&& new.nodes@[parent as int].point == self.nodes@[parent as int].point
        &&& new.nodes@[parent as int].level == self.nodes@[parent as int].level
        &&& new.nodes@[parent as int].ancestor == self.nodes@[parent as int].ancestor
        &&& new.nodes@[parent as int].live
        &&& new.nodes@[parent as int].children@ == self.nodes@[parent as int].children@.push(slot)
    }

    proof fn lemma_attached_nodes(&self, new: &Self, slot: usize, parent: usize, p: T, level: int)
        requires
            self.attached(new, slot, parent, p, level),
        ensures
            forall|i: usize| #[trigger] new.is_node(i) <==> (self.is_node(i) || i == slot),
            forall|i: usize|
                #![trigger self.is_node(i)]
                #![trigger new.is_node(i)]
                self.is_node(i) ==> {
                    &&& new.nodes@[i as int].point == self.nodes@[i as int].point
                    &&& new.nodes@[i as int].level == self.nodes@[i as int].level
                    &&& new.nodes@[i as int].ancestor == self.nodes@[i as int].ancestor
                    &&& (i != parent ==> new.nodes@[i as int].children@
                        == self.nodes@[i as int].children@)
                },
    {
        assert forall|i: usize| #[trigger] new.is_node(i) <==> (self.is_node(i) || i == slot) by {
            if i != slot && i != parent && i < self.nodes@.len() {
                assert(new.nodes@[i as int] == self.nodes@[i as int]);
            }
        }
        assert forall|i: usize|
            #![trigger self.is_node(i)]
            #![trigger new.is_node(i)]
            self.is_node(i) implies {
            &&& new.nodes@[i as int].point == self.nodes@[i as int].point
            &&& new.nodes@[i as int].level == self.nodes@[i as int].level
            &&& new.nodes@[i as int].ancestor == self.nodes@[i as int].ancestor
            &&& (i != parent ==> new.nodes@[i as int].children@ == self.nodes@[i as int].children@)
        } by {
            if i != parent {
                assert(new.nodes@[i as int] == self.nodes@[i as int]);
            }
        }
    }

    proof fn lemma_attached_linked(&self, new: &Self, slot: usize, parent: usize, p: T, level: int)
        requires
            self.linked(),
            self.attached(new, slot, parent, p, level),
            MIN_LEVEL <= level < self.nodes@[parent as int].level,
        ensures
            new.linked(),
    {
        self.lemma_attached_nodes(new, slot, parent, p, level);
        assert(self.node_linked(parent));
        let kids = self.nodes@[parent as int].children@;
        assert(!kids.contains(slot)) by {
            if kids.contains(slot) {
                let k = choose|k: int| 0 <= k < kids.len() && kids[k] == slot;
                assert(self.is_child_of(kids[k], parent));
            }
        }
        assert forall|i: usize| #[trigger] new.is_node(i) implies new.node_linked(i) by {
            if i == slot {
                assert(new.nodes@[parent as int].children@[kids.len() as int] == slot);
                assert(new.node_linked(i));
            } else {
                assert(self.node_linked(i));
                let n = new.nodes@[i as int];
                let o = self.nodes@[i as int];
                assert forall|k: int| 0 <= k < n.children@.len() implies new.is_child_of(
                    #[trigger] n.children@[k],
                    i,
                ) by {
                    if i == parent && k == kids.len() {
                    } else {
                        assert(o.children@[k] == n.children@[k]);
                        assert(self.is_child_of(o.children@[k], i));
                    }
                }
                if i == parent {
                    assert(n.children@.no_duplicates());
                }
                match o.ancestor {
                    None => {},
                    Some(q) => {
                        if q == parent {
                            let k = choose|k: int| 0 <= k < kids.len() && kids[k] == i;
                            assert(new.nodes@[parent as int].children@[k] == i);
                        }
                    },
                }
                assert(new.node_linked(i));
            }
        }
        if self.root is None {
            assert(!self.is_node(parent));
        }
    }

    proof fn lemma_attached_wf(&self, new: &Self, slot: usize, parent: usize, p: T, level: int)
        requires
            self.wf(),
            self.attached(new, slot, parent, p, level),
            MIN_LEVEL <= level < self.nodes@[parent as int].level,
            within_scale(self.nodes@[parent as int].point.dist(&p), level + 1),
            forall|j: int| j <= level ==> self.clear_at(j, p),
        ensures
            new.wf(),
            new@ == self@.insert(p),
    {
        self.lemma_attached_nodes(new, slot, parent, p, level);
        self.lemma_attached_linked(new, slot, parent, p, level);
        assert forall|i: usize| #[trigger] new.is_node(i) implies new.node_covered(i) by {
            if i != slot {
                assert(self.node_covered(i));
                assert(self.node_linked(i));
            }
        }
        assert forall|a: usize, b: usize|
            #![trigger new.is_node(a), new.is_node(b)]
            new.is_node(a) && new.is_node(b) && a != b implies new.pair_separated(a, b) by {
            if a != slot && b != slot {
                assert(self.pair_separated(a, b));
            } else {
                let x = if a == slot {
                    b
                } else {
                    a
                };
                let px = self.nodes@[x as int].point;
                let lx = self.nodes@[x as int].level as int;
                let j = if level <= lx {
                    level
                } else {
                    lx
                };
                assert(self.clear_at(j, p));
                assert(self.is_node(x));
                T::lemma_symmetry(&px, &p);
            }
        }
        assert(new@ =~= self@.insert(p)) by {
            assert forall|q: T| new@.contains(q) <==> self@.insert(p).contains(q) by {
                if new@.contains(q) {
                    let i = choose|i: usize| #[trigger] new.is_node(i) && new.nodes@[i as int].point == q;
                    if i != slot {
                        assert(self.is_node(i));
                    }
                }
                if self@.contains(q) {
                    let i = choose|i: usize| #[trigger]
                        self.is_node(i) && self.nodes@[i as int].point == q;
                    assert(new.is_node(i));
                }
                if q == p {
                    assert(new.is_node(slot));
                }
            }
        }
    }

    /// Stores `p` as a new child of `parent`, placed at `level`.
    fn attach(&mut self, p: T, parent: usize, level: i32) -> (slot: Ghost<usize>)
        requires
            old(self).wf(),
            old(self).is_node(parent),
            MIN_LEVEL <= level < old(self).nodes@[parent as int].level,
            within_scale(old(self).nodes@[parent as int].point.dist(&p), level + 1),
            forall|j: int| j <= level ==> old(self).clear_at(j, p),
        ensures
            final(self).wf(),
            final(self)@ == old(self)@.insert(p),
            old(self).attached(final(self), slot@, parent, p, level as int),
    {
        let node = CoverTreeNode::new(p, level, Some(parent));
        let slot = self.allocate(node);
        assert(slot != parent);
        self.nodes[parent].children.push(slot);
        proof {
            assert(self.free_ok()) by {
                assert forall|k: int| 0 <= k < self.free@.len() implies (#[trigger] self.free@[k])
                    < self.nodes@.len() && !self.nodes@[self.free@[k] as int].live by {
                    let f = self.free@[k];
                    if f == parent {
                    }
                }
            }
            assert(old(self).attached(self, slot, parent, p, level as int));
            old(self).lemma_attached_wf(self, slot, parent, p, level as int);
        }
        Ghost(slot)
    }

    /// Raising the root and then attaching a new node grows the tree.
    proof fn lemma_grown(
        &self,
        raised: &Self,
        new: &Self,
        slot: usize,
        parent: usize,
        p: T,
        level: int,
        top: int,
    )
        requires
            self.linked(),
            new.wf(),
            self.releveled(raised, top),
            raised.attached(new, slot, parent, p, level),
            self.root matches Some(r) && top == (if self.level(r) >= cover_level(
                self.point(r).dist(&p),
            ) {
                self.level(r)
            } else {
                cover_level(self.point(r).dist(&p))
            }),
        ensures
            self.grown(new, slot, p),
    {
        let r = self.root.unwrap();
        raised.lemma_attached_nodes(new, slot, parent, p, level);
        assert(self.is_node(r));
        assert forall|i: usize| self.is_node(i) == raised.is_node(i) by {
            if i < self.nodes@.len() && i != r {
                assert(raised.nodes@[i as int] == self.nodes@[i as int]);
            }
        }
        assert forall|i: usize| #[trigger] self.is_node(i) implies self.kept(new, i) by {
            assert(raised.is_node(i));
            if i != r {
                assert(raised.nodes@[i as int] == self.nodes@[i as int]);
            }
        }
        assert forall|i: usize| #[trigger] new.is_node(i) implies self.is_node(i) || i == slot by {
            assert(raised.is_node(i) || i == slot);
        }
        assert(raised.is_node(r));
        assert(new.is_node(slot));
        assert(new.node_linked(slot));
        assert(new.node_covered(slot));
        assert forall|x: usize, j: int|
            #![trigger self.is_node(x), within_scale(new.node_dist(x, slot), j)]
            self.is_node(x) && j <= new.level(slot) && j <= new.level(x) implies !within_scale(
            new.node_dist(x, slot),
            j,
        ) by {
            assert(new.is_node(x));
            assert(new.pair_separated(x, slot));
            if within_scale(new.node_dist(x, slot), j) {
                let low = if new.level(x) <= new.level(slot) {
                    new.level(x)
                } else {
                    new.level(slot)
                };
                lemma_within_scale_monotonic(new.node_dist(x, slot), j, low);
            }
        }
    }

    /// Two arenas with the same contents are the same tree.
    pub(super) proof fn lemma_same_contents(&self, other: &Self)
        requires
            self.nodes@ == other.nodes@,
            self.root == other.root,
            self.free@ == other.free@,
        ensures
            self.wf() == other.wf(),
            self@ == other@,
            forall|i: usize| self.is_node(i) == other.is_node(i),
    {
        assert forall|i: usize| self.is_node(i) == other.is_node(i) by {}
        assert forall|i: usize| self.node_linked(i) == other.node_linked(i) by {
            let n = self.nodes@[i as int];
            assert forall|k: int| 0 <= k < n.children@.len() implies self.is_child_of(
                n.children@[k],
                i,
            ) == other.is_child_of(n.children@[k], i) by {}
        }
        assert forall|i: usize| self.node_covered(i) == other.node_covered(i) by {}
        assert forall|a: usize, b: usize| self.pair_separated(a, b) == other.pair_separated(a, b) by {}
        assert(self.linked() == other.linked()) by {
            if self.linked() {
                assert forall|i: usize| #[trigger] other.is_node(i) implies other.node_linked(i) by {
                    assert(self.is_node(i));
                }
                assert(other.root is None ==> forall|i: usize| !#[trigger] other.is_node(i)) by {
                    assert forall|i: usize| self.root is None implies !#[trigger] other.is_node(i) by {
                        assert(!self.is_node(i));
                    }
                }
            }
            if other.linked() {
                assert forall|i: usize| #[trigger] self.is_node(i) implies self.node_linked(i) by {
                    assert(other.is_node(i));
                }
                assert(self.root is None ==> forall|i: usize| !#[trigger] self.is_node(i)) by {
                    assert forall|i: usize| other.root is None implies !#[trigger] self.is_node(i) by {
                        assert(!other.is_node(i));
                    }
                }
            }
        }
        assert(self.covered() == other.covered()) by {
            if self.covered() {
                assert forall|i: usize| #[trigger] other.is_node(i) implies other.node_covered(i) by {
                    assert(self.is_node(i));
                }
            }
            if other.covered() {
                assert forall|i: usize| #[trigger] self.is_node(i) implies self.node_covered(i) by {
                    assert(other.is_node(i));
                }
            }
        }
        assert(self.separated() == other.separated()) by {
            if self.separated() {
                assert forall|a: usize, b: usize|
                    #![trigger other.is_node(a), other.is_node(b)]
                    other.is_node(a) && other.is_node(b) && a != b implies other.pair_separated(
                    a,
                    b,
                ) by {
                    assert(self.is_node(a) && self.is_node(b));
                }
            }
            if other.separated() {
                assert forall|a: usize, b: usize|
                    #![trigger self.is_node(a), self.is_node(b)]
                    self.is_node(a) && self.is_node(b) && a != b implies self.pair_separated(
                    a,
                    b,
                ) by {
                    assert(other.is_node(a) && other.is_node(b));
                }
            }
        }
        assert(self@ =~= other@) by {
            assert forall|q: T| self@.contains(q) <==> other@.contains(q) by {
                if self@.contains(q) {
                    let i = choose|i: usize| #[trigger]
                        self.is_node(i) && self.nodes@[i as int].point == q;
                    assert(other.is_node(i));
                }
                if other@.contains(q) {
                    let i = choose|i: usize| #[trigger]
                        other.is_node(i) && other.nodes@[i as int].point == q;
                    assert(self.is_node(i));
                }
            }
        }
    }

    /// How the arena `new` arises from `self` when the root is given the
    /// level `top`.
    pub(super) open spec fn releveled(&self, new: &Self, top: int) -> bool {
        &&& self.root matches Some(r)
        &&& new.root == self.root
        &&& new.free@ == self.free@
        &&& new.nodes@.len() == self.nodes@.len()
        &&& forall|i: int|
            0 <= i < self.nodes@.len() && i != r ==> #[trigger] new.nodes@[i] == self.nodes@[i]
        &&& new.nodes@[r as int].point == self.nodes@[r as int].point
        &&& new.nodes@[r as int].level == top
        &&& new.nodes@[r as int].ancestor == self.nodes@[r as int].ancestor
        &&& new.nodes@[r as int].children == self.nodes@[r as int].children
        &&& new.nodes@[r as int].live == self.nodes@[r as int].live
    }

    /// Raising the root's level keeps the tree a cover tree.
    pub(super) proof fn lemma_releveled_wf(&self, new: &Self, top: int)
        requires
            self.wf(),
            self.releveled(new, top),
            self.nodes@[self.root.unwrap() as int].level <= top <= MAX_LEVEL,
        ensures
            new.wf(),
            new@ == self@,
            forall|i: usize| self.is_node(i) == new.is_node(i),
    {
        let r = self.root.unwrap();
        assert forall|i: usize| self.is_node(i) == new.is_node(i) by {
            if i < self.nodes@.len() && i != r {
                assert(new.nodes@[i as int] == self.nodes@[i as int]);
            }
        }
        assert(self.is_node(r));
        assert(self.node_linked(r));
        assert forall|i: usize| #[trigger] new.is_node(i) implies new.node_linked(i)
            && new.node_covered(i) by {
            assert(self.is_node(i));
            assert(self.node_linked(i));
            assert(self.node_covered(i));
            let n = new.nodes@[i as int];
            let o = self.nodes@[i as int];
            if i != r {
                assert(n == o);
            }
            assert forall|k: int| 0 <= k < n.children@.len() implies new.is_child_of(
                #[trigger] n.children@[k],
                i,
            ) by {
                let c = o.children@[k];
                assert(self.is_child_of(c, i));
                assert(self.is_node(c));
                assert(self.node_linked(c));
                assert(new.nodes@[c as int] == self.nodes@[c as int]);
            }
            match o.ancestor {
                None => {},
                Some(q) => {
                    if q != r {
                        assert(new.nodes@[q as int] == self.nodes@[q as int]);
                    }
                },
            }
        }
        assert forall|a: usize, b: usize|
            #![trigger new.is_node(a), new.is_node(b)]
            new.is_node(a) && new.is_node(b) && a != b implies new.pair_separated(a, b) by {
            assert(self.is_node(a) && self.is_node(b));
            assert(self.pair_separated(a, b));
            assert(self.node_linked(a));
            assert(self.node_linked(b));
            if a != r {
                assert(new.nodes@[a as int] == self.nodes@[a as int]);
            }
            if b != r {
                assert(new.nodes@[b as int] == self.nodes@[b as int]);
            }
        }
        assert(new.free_ok()) by {
            assert forall|k: int| 0 <= k < new.free@.len() implies (#[trigger] new.free@[k])
                < new.nodes@.len() && !new.nodes@[new.free@[k] as int].live by {
                let f = self.free@[k];
                if f != r {
                    assert(new.nodes@[f as int] == self.nodes@[f as int]);
                }
            }
        }
        assert(new@ =~= self@) by {
            assert forall|q: T| new@.contains(q) <==> self@.contains(q) by {
                if new@.contains(q) {
                    let i = choose|i: usize| #[trigger]
                        new.is_node(i) && new.nodes@[i as int].point == q;
                    assert(self.is_node(i));
                    if i != r {
                        assert(new.nodes@[i as int] == self.nodes@[i as int]);
                    }
                }
                if self@.contains(q) {
                    let i = choose|i: usize| #[trigger]
                        self.is_node(i) && self.nodes@[i as int].point == q;
                    assert(new.is_node(i));
                    if i != r {
                        assert(new.nodes@[i as int] == self.nodes@[i as int]);
                    }
                }
            }
        }
    }

    /// Where no node is a candidate at `level`, none is at any lower level.
    pub(super) proof fn lemma_nothing_near_below(&self, level: int, low: int, q: T, strict: bool)
        requires
            self.linked(),
            self.covered(),
            self.root matches Some(r) && level < self.nodes@[r as int].level,
            self.candidates_complete(Seq::<usize>::empty(), level, q, strict),
            low <= level,
        ensures
            self.candidates_complete(Seq::<usize>::empty(), low, q, strict),
        decreases level - low,
    {
        if low < level {
            self.lemma_nothing_near_below(level, low + 1, q, strict);
            assert forall|x: usize| #[trigger] self.is_candidate(x, low, q, strict) implies false by {
                let none = Seq::<usize>::empty();
                assert(self.node_linked(x));
                if self.nodes@[x as int].level >= low + 1 {
                    lemma_near_scale_monotonic(
                        self.nodes@[x as int].point.dist(&q),
                        low + 1,
                        low + 2,
                        strict,
                    );
                    assert(self.is_candidate(x, low + 1, q, strict));
                    assert(none.contains(x));
                } else {
                    self.lemma_parent_is_candidate(x, low + 1, q, strict);
                    let y = self.nodes@[x as int].ancestor.unwrap();
                    assert(none.contains(y));
                }
            }
        }
    }

    /// Where no node is a candidate at `level`, none of that level or
    /// higher lies within `2^level` of `p`.
    proof fn lemma_nothing_near_is_clear(&self, level: int, p: T)
        requires
            self.candidates_complete(Seq::<usize>::empty(), level, p, true),
        ensures
            self.clear_at(level, p),
    {
        assert forall|x: usize| #[trigger]
            self.is_node(x) && self.nodes@[x as int].level >= level implies !within_scale(
            self.nodes@[x as int].point.dist(&p),
            level,
        ) by {
            let d = self.nodes@[x as int].point.dist(&p);
            if within_scale(d, level) {
                lemma_within_implies_below_next(d, level);
                assert(self.is_candidate(x, level, p, true));
                assert(Seq::<usize>::empty().contains(x));
            }
        }
    }

    /// Where no candidate at `level` lies within `2^level` of `p`, no node
    /// of that level or higher does.
    proof fn lemma_candidates_far_is_clear(&self, set: Seq<usize>, level: int, p: T)
        requires
            self.candidates_complete(set, level, p, true),
            forall|k: int|
                0 <= k < set.len() ==> !within_scale(
                    self.nodes@[#[trigger] set[k] as int].point.dist(&p),
                    level,
                ),
        ensures
            self.clear_at(level, p),
    {
        assert forall|x: usize| #[trigger]
            self.is_node(x) && self.nodes@[x as int].level >= level implies !within_scale(
            self.nodes@[x as int].point.dist(&p),
            level,
        ) by {
            let d = self.nodes@[x as int].point.dist(&p);
            if within_scale(d, level) {
                lemma_within_implies_below_next(d, level);
                assert(self.is_candidate(x, level, p, true));
                let k = choose|k: int| 0 <= k < set.len() && set[k] == x;
                assert(!within_scale(self.nodes@[set[k] as int].point.dist(&p), level));
            }
        }
    }

    /// What the descent for `p` has found: for each level from the root's
    /// downward, the candidates for a parent, none of them at distance zero.
    pub(super) open spec fn descended(&self, sets: Seq<Vec<usize>>, p: T) -> bool {
        &&& self.root matches Some(r)
        &&& 1 <= sets.len() <= self.nodes@[r as int].level + 1
        &&& sets[0]@ == seq![r]
        &&& forall|k: int|
            0 <= k < sets.len() ==> {
                &&& self.candidates_sound((#[trigger] sets[k])@, self.nodes@[r as int].level - k)
                &&& self.candidates_complete(sets[k]@, self.nodes@[r as int].level - k, p, true)
                &&& self.candidates_apart(sets[k]@, p)
            }
        &&& self.candidates_complete(
            Seq::<usize>::empty(),
            self.nodes@[r as int].level - sets.len(),
            p,
            true,
        )
    }

    /// Descends from the root to the candidates for a parent of `p`, level
    /// by level, until a level has none. Returns nothing if the tree holds
    /// `p`.
    fn candidate_parents(&self, p: &T, r: usize) -> (res: Option<Vec<Vec<usize>>>)
        requires
            self.wf(),
            self.root == Some(r),
            self.nodes@[r as int].point.dist(p) > 0,
            self.nodes@[r as int].level >= 0,
        ensures
            match res {
                Some(sets) => self.descended(sets@, *p),
                None => self@.contains(*p),
            },
    {
        let top = self.nodes[r].level;
        let mut first: Vec<usize> = Vec::new();
        first.push(r);
        let mut sets: Vec<Vec<usize>> = Vec::new();
        sets.push(first);
        let mut level: i32 = top;
        proof {
            assert(self.is_node(r));
            assert(self.node_linked(r));
            assert(sets@[0]@ =~= seq![r]);
            assert forall|x: usize| #[trigger]
                self.is_candidate(x, top as int, *p, true) implies sets@[0]@.contains(x) by {
                assert(self.node_linked(x));
                assert(x == r);
                assert(sets@[0]@[0] == r);
            }
        }
        loop
            invariant_except_break
                self.candidates_complete(sets@[sets@.len() - 1]@, level as int, *p, true),
            invariant
                self.wf(),
                self.root == Some(r),
                top == self.nodes@[r as int].level,
                0 <= level <= top <= MAX_LEVEL,
                sets@.len() == top - level + 1,
                sets@[0]@ == seq![r],
                forall|k: int|
                    0 <= k < sets@.len() ==> {
                        &&& self.candidates_sound((#[trigger] sets@[k])@, top - k)
                        &&& self.candidates_complete(sets@[k]@, top - k, *p, true)
                        &&& self.candidates_apart(sets@[k]@, *p)
                    },
            ensures
                self.candidates_complete(Seq::<usize>::empty(), level - 1, *p, true),
            decreases level,
        {
            let (next, zero) = self.expand(&sets[sets.len() - 1], level, p, true);
            match zero {
                Some(z) => {
                    proof {
                        let k = choose|k: int| 0 <= k < next@.len() && next@[k] == z;
                        assert(self.is_node(next@[k]));
                        T::lemma_identity(&self.nodes@[z as int].point, p);
                    }
                    return None;
                },
                None => {},
            }
            if next.len() == 0 {
                proof {
                    assert(next@ =~= Seq::<usize>::empty());
                }
                break ;
            }
            proof {
                let d = self.nodes@[next@[0] as int].point.dist(p);
                lemma_positive_below_level(d, level as int);
            }
            let ghost before = sets@;
            sets.push(next);
            level = level - 1;
            proof {
                assert forall|k: int| 0 <= k < sets@.len() implies {
                    &&& self.candidates_sound((#[trigger] sets@[k])@, top - k)
                    &&& self.candidates_complete(sets@[k]@, top - k, *p, true)
                    &&& self.candidates_apart(sets@[k]@, *p)
                } by {
                    if k < before.len() {
                        assert(sets@[k] == before[k]);
                    }
                }
            }
        }
        Some(sets)
    }

    /// Picks the parent: from the lowest level of candidates upward, the
    /// first candidate whose scale covers `p`. Returns it with the level of
    /// its set.
    fn deepest_parent(&self, sets: &Vec<Vec<usize>>, p: &T, r: usize) -> (res: (usize, i32))
        requires
            self.wf(),
            self.root == Some(r),
            self.descended(sets@, *p),
            within_scale(self.nodes@[r as int].point.dist(p), self.nodes@[r as int].level as int),
        ensures
            self.is_node(res.0),
            0 <= res.1 <= self.nodes@[res.0 as int].level,
            within_scale(self.nodes@[res.0 as int].point.dist(p), res.1 as int),
            forall|j: int| j < res.1 ==> self.clear_at(j, *p),
    {
        let top = self.nodes[r].level;
        let mut k: usize = sets.len() - 1;
        proof {
            assert(self.is_node(r));
            assert(self.node_linked(r));
            assert forall|j: int| j < top - k implies self.clear_at(j, *p) by {
                self.lemma_nothing_near_below(top - sets@.len(), j, *p, true);
                self.lemma_nothing_near_is_clear(j, *p);
            }
        }
        loop
            invariant
                self.wf(),
                self.root == Some(r),
                self.descended(sets@, *p),
                top == self.nodes@[r as int].level,
                within_scale(self.nodes@[r as int].point.dist(p), top as int),
                0 <= k < sets@.len(),
                forall|j: int| j < top - k ==> self.clear_at(j, *p),
            decreases k,
        {
            let level: i32 = top - k as i32;
            let set = &sets[k];
            let mut a: usize = 0;
            while a < set.len()
                invariant
                    self.wf(),
                    self.descended(sets@, *p),
                    self.root == Some(r),
                    top == self.nodes@[r as int].level,
                    0 <= k < sets@.len(),
                    level == top - k,
                    set == sets@[k as int],
                    0 <= a <= set@.len(),
                    forall|j: int| j < top - k ==> self.clear_at(j, *p),
                    forall|b: int|
                        0 <= b < a ==> !within_scale(
                            self.nodes@[#[trigger] set@[b] as int].point.dist(p),
                            level as int,
                        ),
                decreases set@.len() - a,
            {
                let y = set[a];
                assert(self.candidates_sound(sets@[k as int]@, top - k));
                assert(self.is_node(set@[a as int]));
                let d = self.nodes[y].point.distance(p);
                if is_within_scale(d, level) {
                    proof {
                        assert(self.candidates_apart(sets@[k as int]@, *p));
                        assert(self.nodes@[set@[a as int] as int].point.dist(p) > 0);
                        lemma_positive_within_level(d as nat, level as int);
                    }
                    return (y, level);
                }
                a = a + 1;
            }
            proof {
                self.lemma_candidates_far_is_clear(set@, level as int, *p);
                if k == 0 {
                    assert(set@[0] == r);
                    assert(false);
                }
                assert forall|j: int| j < top - (k - 1) implies self.clear_at(j, *p) by {
                    if j == level {
                    }
                }
            }
            k = k - 1;
        }
    }

    /// Gives the root of a non-empty tree the level `top`.
    pub(super) fn set_root_level(&mut self, r: usize, top: i32)
        requires
            old(self).root == Some(r),
            r < old(self).nodes@.len(),
        ensures
            old(self).releveled(final(self), top as int),
    {
        self.nodes[r].level = top;
    }

    /// Adds `p` to the tree, unless the tree holds it already.
    ///
    /// The root's level is first raised until its scale covers `p`. The
    /// point then becomes a child of a node that covers it at the lowest
    /// level at which any node does, and is placed one level below; the
    /// first such node in the order of the descent is taken. Where the
    /// point is refused, the root is left at its level.
    pub fn insert(&mut self, p: T) -> (res: Result<(), InsertError>)
        requires
            old(self).wf(),
        ensures
            final(self).wf(),
            match res {
                Ok(()) => {
                    &&& !old(self)@.contains(p)
                    &&& final(self)@ == old(self)@.insert(p)
                    &&& exists|s: usize| #[trigger] old(self).grown(final(self), s, p)
                },
                Err(e) => {
                    &&& e == InsertError::DuplicatePoint
                    &&& old(self)@.contains(p)
                    &&& final(self)@ == old(self)@
                    &&& old(self).same_shape(final(self))
                },
            },
    {
        let r = match self.root {
            None => {
                let node = CoverTreeNode::new(p, 0, None);
                let slot = self.allocate(node);
                self.root = Some(slot);
                proof {
                    assert forall|i: usize| #[trigger] self.is_node(i) <==> i == slot by {
                        if i != slot && i < old(self).nodes@.len() {
                            assert(!old(self).is_node(i));
                            assert(self.nodes@[i as int] == old(self).nodes@[i as int]);
                        }
                    }
                    assert(self.node_linked(slot));
                    assert(self@ =~= old(self)@.insert(p)) by {
                        assert(old(self)@ =~= Set::<T>::empty()) by {
                            assert forall|q: T| !old(self)@.contains(q) by {
                                if old(self)@.contains(q) {
                                    let i = choose|i: usize| #[trigger]
                                        old(self).is_node(i) && old(self).nodes@[i as int].point
                                            == q;
                                }
                            }
                        }
                        assert(self.is_node(slot));
                    }
                    assert(old(self).grown(self, slot, p));
                }
                return Ok(());
            },
            Some(r) => r,
        };
        assert(self.is_node(r));
        assert(self.node_linked(r));
        let d = self.nodes[r].point.distance(&p);
        if d == 0 {
            proof {
                T::lemma_identity(&self.nodes@[r as int].point, &p);
            }
            return Err(InsertError::DuplicatePoint);
        }
        let low = self.nodes[r].level;
        let cover = cover_level_of(d);
        let top = if cover > low {
            cover
        } else {
            low
        };
        self.set_root_level(r, top);
        proof {
            old(self).lemma_releveled_wf(self, top as int);
            lemma_within_scale_monotonic(d as nat, cover as int, top as int);
        }
        let ghost raised = *self;
        match self.candidate_parents(&p, r) {
            None => {
                self.set_root_level(r, low);
                proof {
                    assert(self.nodes@[r as int] == old(self).nodes@[r as int]);
                    assert(self.nodes@ =~= old(self).nodes@);
                    old(self).lemma_same_contents(self);
                    assert(old(self).same_shape(self));
                }
                Err(InsertError::DuplicatePoint)
            },
            Some(sets) => {
                let (parent, level) = self.deepest_parent(&sets, &p, r);
                proof {
                    assert(self.node_linked(parent));
                    assert(!self@.contains(p)) by {
                        if self@.contains(p) {
                            let i = choose|i: usize| #[trigger]
                                self.is_node(i) && self.nodes@[i as int].point == p;
                            T::lemma_identity(&self.nodes@[i as int].point, &p);
                            let l = self.nodes@[i as int].level as int;
                            let j = if l < level - 1 {
                                l
                            } else {
                                level - 1
                            };
                            assert(self.clear_at(j, p));
                        }
                    }
                }
                let slot = self.attach(p, parent, level - 1);
                proof {
                    old(self).lemma_grown(&raised, self, slot@, parent, p, level - 1, top as int);
                }
                Ok(())
            },
        }
    }
}

} // verus!
