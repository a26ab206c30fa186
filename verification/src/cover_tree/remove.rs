//! Removal: locate the point, take its node out, and give each of its
//! children a new parent among the candidates that the search has recorded.
use crate::cover_tree::{CoverTree, CoverTreeNode, Distance, RemoveError};
use crate::scale::{
    is_within_scale, lemma_within_scale_monotonic, lemma_within_scale_sum, within_scale, MAX_LEVEL,
    MIN_LEVEL,
};
use vstd::prelude::*;

verus! {

/// The number of levels that a table of candidates has a slot for: the
/// levels from `MIN_LEVEL` to `MAX_LEVEL`, in this order.
pub const LEVEL_SLOTS: usize = 66;

impl<T: Distance> CoverTree<T> {
    /// What the search for `q` has recorded: for every level from `low`
    /// upward, in the slot of that level, the nodes of that level or higher
    /// that lie within `2^(level + 1)` of `q`.
    pub(super) open spec fn recorded(&self, table: Seq<Vec<usize>>, low: int, q: T) -> bool {
        &&& table.len() == LEVEL_SLOTS
        &&& forall|s: int|
            low + 1 <= s < LEVEL_SLOTS ==> {
                &&& self.candidates_sound((#[trigger] table[s])@, s - 1)
                &&& self.candidates_complete(table[s]@, s - 1, q, false)
            }
    }

    /// No recorded candidate from `low` upward is at distance zero from `q`.
    pub(super) open spec fn recorded_apart(&self, table: Seq<Vec<usize>>, low: int, q: T) -> bool {
        forall|s: int|
            low + 1 <= s < LEVEL_SLOTS && s < table.len() ==> self.candidates_apart(
                (#[trigger] table[s])@,
                q,
            )
    }

    /// A table with an empty slot for each level.
    fn empty_table() -> (table: Vec<Vec<usize>>)
        ensures
            table@.len() == LEVEL_SLOTS,
            forall|s: int| 0 <= s < LEVEL_SLOTS ==> (#[trigger] table@[s])@ == Seq::<usize>::empty(),
    {
        let mut table: Vec<Vec<usize>> = Vec::new();
        let mut s: usize = 0;
        while s < LEVEL_SLOTS
            invariant
                0 <= s <= LEVEL_SLOTS,
                table@.len() == s,
                forall|k: int| 0 <= k < s ==> (#[trigger] table@[k])@ == Seq::<usize>::empty(),
            decreases LEVEL_SLOTS - s,
        {
            table.push(Vec::new());
            s = s + 1;
        }
        table
    }

    /// The lowest level among the children of node `t`, if it has any.
    fn lowest_child_level(&self, t: usize) -> (res: Option<i32>)
        requires
            self.linked(),
            self.is_node(t),
        ensures
            match res {
                None => self.nodes@[t as int].children@.len() == 0,
                Some(low) => {
                    &&& MIN_LEVEL <= low < self.nodes@[t as int].level
                    &&& forall|k: int|
                        0 <= k < self.nodes@[t as int].children@.len() ==> low <= self.nodes@[(
                        #[trigger] self.nodes@[t as int].children@[k]) as int].level
                },
            },
    {
        assert(self.node_linked(t));
        let mut lowest: Option<i32> = None;
        let mut k: usize = 0;
        while k < self.nodes[t].children.len()
            invariant
                self.linked(),
                self.is_node(t),
                self.node_linked(t),
                0 <= k <= self.nodes@[t as int].children@.len(),
                match lowest {
                    None => k == 0,
                    Some(low) => {
                        &&& MIN_LEVEL <= low < self.nodes@[t as int].level
                        &&& forall|j: int|
                            0 <= j < k ==> low <= self.nodes@[(
                            #[trigger] self.nodes@[t as int].children@[j]) as int].level
                    },
                },
            decreases self.nodes@[t as int].children@.len() - k,
        {
            let c = self.nodes[t].children[k];
            assert(self.is_child_of(c, t));
            assert(self.node_linked(c));
            let child_level = self.nodes[c].level;
            lowest = match lowest {
                None => Some(child_level),
                Some(low) => if child_level < low {
                    Some(child_level)
                } else {
                    Some(low)
                },
            };
            k = k + 1;
        }
        lowest
    }

    /// Descends from the root towards `target` and records the candidates
    /// of every level visited. Returns the table of candidates, the node
    /// that holds `target`, if there is one, and the lowest level recorded.
    ///
    /// Once the node is found the descent goes on to the level above its
    /// lowest child, so that each child finds the candidates of the levels
    /// above its own.
    fn locate(&self, target: &T, r: usize) -> (res: (Vec<Vec<usize>>, Option<usize>, i32))
        requires
            self.wf(),
            self.root == Some(r),
        ensures
            match res.1 {
                None => !self@.contains(*target),
                Some(t) => {
                    &&& self.is_node(t)
                    &&& self.nodes@[t as int].point == *target
                    &&& self.recorded(res.0@, res.2 as int, *target)
                    &&& MIN_LEVEL <= res.2
                    &&& forall|k: int|
                        0 <= k < self.nodes@[t as int].children@.len() ==> res.2 <= self.nodes@[(
                        #[trigger] self.nodes@[t as int].children@[k]) as int].level + 1
                },
            },
    {
        assert(self.is_node(r));
        assert(self.node_linked(r));
        let top = self.nodes[r].level;
        let mut table = Self::empty_table();
        let d = self.nodes[r].point.distance(target);
        let mut found: Option<usize> = if d == 0 {
            Some(r)
        } else {
            None
        };
        let mut first: Vec<usize> = Vec::new();
        first.push(r);
        table[(top + 1) as usize] = first;
        let mut level: i32 = top;
        proof {
            assert forall|s: int| level + 1 <= s < LEVEL_SLOTS implies {
                &&& self.candidates_sound((#[trigger] table@[s])@, s - 1)
                &&& self.candidates_complete(table@[s]@, s - 1, *target, false)
            } by {
                assert forall|x: usize| #[trigger]
                    self.is_candidate(x, s - 1, *target, false) implies table@[s]@.contains(x) by {
                    assert(self.node_linked(x));
                    assert(x == r);
                    assert(table@[top + 1]@[0] == r);
                }
            }
        }
        while found.is_none() && level >= 0 && table[(level + 1) as usize].len() > 0
            invariant
                self.wf(),
                self.root == Some(r),
                top == self.nodes@[r as int].level,
                MIN_LEVEL <= level <= top <= MAX_LEVEL,
                self.recorded(table@, level as int, *target),
                table@[top + 1]@.len() > 0,
                match found {
                    None => self.recorded_apart(table@, level as int, *target),
                    Some(t) => self.is_node(t) && self.nodes@[t as int].point.dist(target) == 0,
                },
            decreases level + 1,
        {
            let (next, zero) = self.expand(&table[(level + 1) as usize], level, target, false);
            proof {
                match zero {
                    Some(z) => {
                        let k = choose|k: int| 0 <= k < next@.len() && next@[k] == z;
                        assert(self.is_node(next@[k]));
                    },
                    None => {},
                }
            }
            found = zero;
            let ghost before = table@;
            table[level as usize] = next;
            level = level - 1;
            proof {
                assert forall|s: int| level + 1 <= s < LEVEL_SLOTS implies {
                    &&& self.candidates_sound((#[trigger] table@[s])@, s - 1)
                    &&& self.candidates_complete(table@[s]@, s - 1, *target, false)
                } by {
                    if s > level + 1 {
                        assert(table@[s] == before[s]);
                    }
                }
                if found is None {
                    assert forall|s: int|
                        level + 1 <= s < LEVEL_SLOTS && s < table@.len() implies self.candidates_apart(
                        (#[trigger] table@[s])@,
                        *target,
                    ) by {
                        if s > level + 1 {
                            assert(table@[s] == before[s]);
                        }
                    }
                }
            }
        }
        let t = match found {
            None => {
                proof {
                    if self@.contains(*target) {
                        let x = choose|x: usize| #[trigger]
                            self.is_node(x) && self.nodes@[x as int].point == *target;
                        T::lemma_identity(&self.nodes@[x as int].point, target);
                        assert(self.node_linked(x));
                        let lx = self.nodes@[x as int].level as int;
                        let set = table@[level + 1]@;
                        if set.len() == 0 {
                            assert(set =~= Seq::<usize>::empty());
                            let low = if lx < level {
                                lx
                            } else {
                                level as int
                            };
                            assert(level < top) by {
                                if level == top {
                                    assert(table@[top + 1]@.len() > 0);
                                }
                            }
                            self.lemma_nothing_near_below(level as int, low, *target, false);
                            assert(self.is_candidate(x, low, *target, false));
                            assert(Seq::<usize>::empty().contains(x));
                        } else {
                            assert(level == -1);
                            assert(self.is_candidate(x, -1, *target, false));
                            let k = choose|k: int| 0 <= k < set.len() && set[k] == x;
                            assert(self.candidates_apart(table@[level + 1]@, *target));
                            assert(self.nodes@[set[k] as int].point.dist(target) > 0);
                        }
                    }
                }
                return (table, None, level);
            },
            Some(t) => t,
        };
        proof {
            T::lemma_identity(&self.nodes@[t as int].point, target);
            assert(self.node_linked(t));
        }
        match self.lowest_child_level(t) {
            None => {},
            Some(lowest) => {
                while level > lowest + 1
                    invariant
                        self.wf(),
                        self.root == Some(r),
                        top == self.nodes@[r as int].level,
                        MIN_LEVEL <= lowest < MAX_LEVEL,
                        MIN_LEVEL <= level <= top <= MAX_LEVEL,
                        self.recorded(table@, level as int, *target),
                    decreases level + 1,
                {
                    let (next, _zero) = self.expand(
                        &table[(level + 1) as usize],
                        level,
                        target,
                        false,
                    );
                    let ghost before = table@;
                    table[level as usize] = next;
                    level = level - 1;
                    proof {
                        assert forall|s: int| level + 1 <= s < LEVEL_SLOTS implies {
                            &&& self.candidates_sound((#[trigger] table@[s])@, s - 1)
                            &&& self.candidates_complete(table@[s]@, s - 1, *target, false)
                        } by {
                            if s > level + 1 {
                                assert(table@[s] == before[s]);
                            }
                        }
                    }
                }
            },
        }
        (table, Some(t), level)
    }

    /// What `node_linked` asks of node `i`, where the nodes of `pending`
    /// wait for a parent and may be as high as the root.
    pub(super) open spec fn node_grafted(&self, i: usize, pending: Set<usize>) -> bool {
        let n = self.nodes@[i as int];
        &&& MIN_LEVEL <= n.level <= MAX_LEVEL
        &&& pending.contains(i) ==> n.level < MAX_LEVEL
        &&& n.children@.no_duplicates()
        &&& forall|k: int|
            0 <= k < n.children@.len() ==> self.is_child_of(#[trigger] n.children@[k], i)
        &&& match n.ancestor {
            None => self.root == Some(i) || pending.contains(i),
            Some(p) => {
                &&& self.root != Some(i)
                &&& !pending.contains(i)
                &&& self.is_node(p)
                &&& self.nodes@[p as int].children@.contains(i)
                &&& n.level < self.nodes@[p as int].level
            },
        }
        &&& self.root matches Some(r) ==> (r != i ==> {
            &&& n.level <= self.nodes@[r as int].level
            &&& !pending.contains(i) ==> n.level < self.nodes@[r as int].level
        })
    }

    /// The invariant of the tree while the nodes of `pending` wait for a
    /// new parent.
    pub(super) open spec fn forest(&self, pending: Set<usize>) -> bool {
        &&& self.root matches Some(r) ==> self.is_node(r) && !pending.contains(r)
        &&& self.root is None ==> forall|i: usize| !#[trigger] self.is_node(i)
        &&& forall|i: usize| #[trigger] self.is_node(i) ==> self.node_grafted(i, pending)
        &&& forall|i: usize| pending.contains(i) ==> #[trigger] self.is_node(i)
        &&& self.free_ok()
        &&& self.covered()
        &&& self.separated()
    }

    /// Once no node waits for a parent, the tree's invariant holds again.
    proof fn lemma_forest_settled(&self)
        requires
            self.forest(Set::<usize>::empty()),
        ensures
            self.wf(),
    {
        assert forall|i: usize| #[trigger] self.is_node(i) implies self.node_linked(i) by {
            assert(self.node_grafted(i, Set::<usize>::empty()));
        }
    }

    /// In a tree whose root is `t`, every other node is at most as high as
    /// the highest child of `t`, and lower unless it is a child of `t`.
    proof fn lemma_below_top_child(&self, t: usize, i: usize, high: int)
        requires
            self.linked(),
            self.root == Some(t),
            self.is_node(i),
            i != t,
            forall|k: int|
                0 <= k < self.nodes@[t as int].children@.len() ==> self.nodes@[(
                #[trigger] self.nodes@[t as int].children@[k]) as int].level <= high,
        ensures
            self.nodes@[i as int].level <= high,
            self.nodes@[i as int].ancestor != Some(t) ==> self.nodes@[i as int].level < high,
        decreases MAX_LEVEL - self.nodes@[i as int].level,
    {
        assert(self.node_linked(i));
        let y = self.nodes@[i as int].ancestor.unwrap();
        assert(self.node_linked(y));
        if y == t {
            let kids = self.nodes@[t as int].children@;
            let k = choose|k: int| 0 <= k < kids.len() && kids[k] == i;
            assert(self.nodes@[kids[k] as int].level <= high);
        } else {
            self.lemma_below_top_child(t, y, high);
        }
    }

    /// All of `new` but slot `i` is as in `self`.
    pub(super) open spec fn same_but(&self, new: &Self, i: usize) -> bool {
        &&& new.root == self.root
        &&& new.free@ == self.free@
        &&& new.nodes@.len() == self.nodes@.len()
        &&& i < self.nodes@.len()
        &&& forall|j: int|
            0 <= j < self.nodes@.len() && j != i ==> #[trigger] new.nodes@[j] == self.nodes@[j]
    }

    /// Takes the list of children out of node `t`.
    fn take_children(&mut self, t: usize) -> (kids: Vec<usize>)
        requires
            t < old(self).nodes@.len(),
        ensures
            old(self).same_but(final(self), t),
            kids@ == old(self).nodes@[t as int].children@,
            final(self).nodes@[t as int].children@ == Seq::<usize>::empty(),
            final(self).nodes@[t as int].point == old(self).nodes@[t as int].point,
            final(self).nodes@[t as int].level == old(self).nodes@[t as int].level,
            final(self).nodes@[t as int].ancestor == old(self).nodes@[t as int].ancestor,
            final(self).nodes@[t as int].live == old(self).nodes@[t as int].live,
    {
        let mut kids: Vec<usize> = Vec::new();
        core::mem::swap(&mut kids, &mut self.nodes[t].children);
        kids
    }

    /// How the arena `new` arises from `self` when node `t` is taken out:
    /// its children, but for one that becomes the root where `t` was the
    /// root, are left without a parent, in the order of `orphans`. `at` is
    /// the position of `t` among its parent's children, or that of the new
    /// root among the children of `t`.
    pub(super) open spec fn detached(&self, new: &Self, t: usize, orphans: Seq<usize>, at: int) -> bool {
        let kids = self.nodes@[t as int].children@;
        &&& self.is_node(t)
        &&& new.nodes@.len() == self.nodes@.len()
        &&& !new.nodes@[t as int].live
        &&& new.free@ == self.free@.push(t)
        &&& forall|i: usize|
            i < self.nodes@.len() && i != t ==> {
                let n = #[trigger] new.nodes@[i as int];
                let o = self.nodes@[i as int];
                &&& n.point == o.point
                &&& n.level == o.level
                &&& n.live == o.live
                &&& n.ancestor == (if kids.contains(i) {
                    None
                } else {
                    o.ancestor
                })
                &&& (Some(i) != self.nodes@[t as int].ancestor ==> n.children@ == o.children@)
            }
        &&& match self.nodes@[t as int].ancestor {
            Some(y) => {
                &&& 0 <= at < self.nodes@[y as int].children@.len()
                &&& self.nodes@[y as int].children@[at] == t
                &&& new.nodes@[y as int].children@ == self.nodes@[y as int].children@.remove(at)
                &&& new.root == self.root
                &&& orphans == kids
            },
            None => {
                if kids.len() == 0 {
                    new.root is None && orphans == kids
                } else {
                    &&& 0 <= at < kids.len()
                    &&& new.root == Some(kids[at])
                    &&& orphans == kids.remove(at)
                    &&& forall|k: int|
                        0 <= k < kids.len() ==> self.nodes@[(#[trigger] kids[k]) as int].level
                            <= self.nodes@[kids[at] as int].level
                }
            },
        }
    }

    proof fn lemma_detached_grafted(&self, new: &Self, t: usize, orphans: Seq<usize>, at: int, i: usize)
        requires
            self.wf(),
            self.detached(new, t, orphans, at),
            self.is_node(i),
            i != t,
        ensures
            new.is_node(i),
            new.node_grafted(i, orphans.to_set()),
            new.node_covered(i),
    {
        let kids = self.nodes@[t as int].children@;
        let pending = orphans.to_set();
        let n = new.nodes@[i as int];
        let o = self.nodes@[i as int];
        assert(self.node_linked(t));
        assert(self.node_linked(i));
        assert(self.node_covered(i));
        assert forall|c: usize| kids.contains(c) implies self.is_child_of(c, t) by {
            let k = choose|k: int| 0 <= k < kids.len() && kids[k] == c;
            assert(self.is_child_of(kids[k], t));
        }
        assert(n.point == o.point);
        lemma_remove_facts(kids, at);
        if self.nodes@[t as int].ancestor == Some(i) {
            lemma_remove_facts(o.children@, at);
        }
        if kids.contains(i) {
            assert(self.is_child_of(i, t));
        }
        assert(o.ancestor == Some(t) ==> kids.contains(i));
        // children
        assert forall|k: int| 0 <= k < n.children@.len() implies new.is_child_of(
            #[trigger] n.children@[k],
            i,
        ) by {
            let c = n.children@[k];
            assert(o.children@.contains(c));
            let j = choose|j: int| 0 <= j < o.children@.len() && o.children@[j] == c;
            assert(self.is_child_of(o.children@[j], i));
            assert(c != t);
            assert(new.nodes@[c as int].live);
            assert(!kids.contains(c));
        }
        // parent
        match o.ancestor {
            None => {
                assert(self.root == Some(i));
            },
            Some(p) => {
                if p != t {
                    assert(!kids.contains(i));
                    assert(self.node_linked(p));
                    assert(new.nodes@[p as int].live);
                    assert(new.nodes@[p as int].children@.contains(i)) by {
                        if self.nodes@[t as int].ancestor == Some(p) {
                            lemma_remove_facts(self.nodes@[p as int].children@, at);
                        }
                    }
                    if self.nodes@[t as int].ancestor is None && kids.len() > 0 {
                        assert(kids.contains(kids[at]));
                    }
                }
            },
        }
        // the root has the highest level
        match new.root {
            None => {},
            Some(r) => {
                if r != i {
                    if self.nodes@[t as int].ancestor is None {
                        assert(self.root == Some(t));
                        self.lemma_below_top_child(t, i, self.nodes@[kids[at] as int].level as int);
                        assert(kids.contains(kids[at]));
                        if !pending.contains(i) {
                            assert(!kids.contains(i));
                        }
                    }
                }
            },
        }
    }

    /// Taking a node out leaves a forest in which its children wait for a
    /// parent; the other nodes, their points and their levels are as before.
    proof fn lemma_detached_forest(&self, new: &Self, t: usize, orphans: Seq<usize>, at: int)
        requires
            self.wf(),
            self.detached(new, t, orphans, at),
        ensures
            new.forest(orphans.to_set()),
            orphans.no_duplicates(),
            forall|i: usize| #[trigger] new.is_node(i) <==> self.is_node(i) && i != t,
            forall|k: int| 0 <= k < orphans.len() ==> self.is_child_of(#[trigger] orphans[k], t),
            new@ == self@.remove(self.nodes@[t as int].point),
    {
        let kids = self.nodes@[t as int].children@;
        let pending = orphans.to_set();
        assert(self.node_linked(t));
        lemma_remove_facts(kids, at);
        assert forall|i: usize| #[trigger] new.is_node(i) <==> self.is_node(i) && i != t by {
            if i < self.nodes@.len() && i != t {
                assert(new.nodes@[i as int].live == self.nodes@[i as int].live);
            }
        }
        assert forall|k: int| 0 <= k < orphans.len() implies self.is_child_of(
            #[trigger] orphans[k],
            t,
        ) by {
            assert(kids.contains(orphans[k]));
            let j = choose|j: int| 0 <= j < kids.len() && kids[j] == orphans[k];
            assert(self.is_child_of(kids[j], t));
        }
        assert forall|i: usize| #[trigger] new.is_node(i) implies new.node_grafted(i, pending)
            && new.node_covered(i) by {
            self.lemma_detached_grafted(new, t, orphans, at, i);
        }
        assert forall|i: usize| pending.contains(i) implies #[trigger] new.is_node(i) by {
            let k = choose|k: int| 0 <= k < orphans.len() && orphans[k] == i;
            assert(self.is_child_of(orphans[k], t));
            assert(self.node_linked(i));
        }
        assert forall|a: usize, b: usize|
            #![trigger new.is_node(a), new.is_node(b)]
            new.is_node(a) && new.is_node(b) && a != b implies new.pair_separated(a, b) by {
            assert(self.is_node(a) && self.is_node(b));
            assert(self.pair_separated(a, b));
            assert(new.nodes@[a as int].point == self.nodes@[a as int].point);
            assert(new.nodes@[b as int].point == self.nodes@[b as int].point);
        }
        assert(new.free_ok()) by {
            assert forall|k: int| 0 <= k < self.free@.len() implies self.free@[k] != t by {
                assert(!self.nodes@[self.free@[k] as int].live);
            }
            assert forall|k: int| 0 <= k < new.free@.len() implies (#[trigger] new.free@[k])
                < new.nodes@.len() && !new.nodes@[new.free@[k] as int].live by {
                if k < self.free@.len() {
                    let f = self.free@[k];
                    assert(new.nodes@[f as int].live == self.nodes@[f as int].live);
                }
            }
        }
        match new.root {
            Some(r) => {
                if self.nodes@[t as int].ancestor is None {
                    assert(kids.contains(kids[at]));
                    assert(self.is_child_of(kids[at], t));
                    assert(!pending.contains(r));
                } else {
                    assert(self.node_linked(r));
                    if pending.contains(r) {
                        let k = choose|k: int| 0 <= k < orphans.len() && orphans[k] == r;
                        assert(self.is_child_of(orphans[k], t));
                    }
                }
            },
            None => {
                assert forall|i: usize| !#[trigger] new.is_node(i) by {
                    if new.is_node(i) {
                        self.lemma_below_top_child(t, i, -5);
                        assert(self.node_linked(i));
                    }
                }
            },
        }
        let tp = self.nodes@[t as int].point;
        assert(new@ =~= self@.remove(tp)) by {
            assert forall|q: T| new@.contains(q) <==> self@.remove(tp).contains(q) by {
                if new@.contains(q) {
                    let i = choose|i: usize| #[trigger]
                        new.is_node(i) && new.nodes@[i as int].point == q;
                    assert(self.is_node(i));
                    assert(new.nodes@[i as int].point == self.nodes@[i as int].point);
                    assert(self.pair_separated(i, t));
                    T::lemma_identity(&self.nodes@[i as int].point, &tp);
                }
                if self@.contains(q) && q != tp {
                    let i = choose|i: usize| #[trigger]
                        self.is_node(i) && self.nodes@[i as int].point == q;
                    assert(new.is_node(i));
                    assert(new.nodes@[i as int].point == self.nodes@[i as int].point);
                }
            }
        }
    }

    /// The position of node `t` among the children of node `y`.
    fn position_of(&self, y: usize, t: usize) -> (at: usize)
        requires
            y < self.nodes@.len(),
            self.nodes@[y as int].children@.contains(t),
        ensures
            at < self.nodes@[y as int].children@.len(),
            self.nodes@[y as int].children@[at as int] == t,
    {
        let mut at: usize = 0;
        while self.nodes[y].children[at] != t
            invariant
                y < self.nodes@.len(),
                self.nodes@[y as int].children@.contains(t),
                0 <= at < self.nodes@[y as int].children@.len(),
                forall|j: int| 0 <= j < at ==> self.nodes@[y as int].children@[j] != t,
            decreases self.nodes@[y as int].children@.len() - at,
        {
            proof {
                let kids = self.nodes@[y as int].children@;
                let j = choose|j: int| 0 <= j < kids.len() && kids[j] == t;
                assert(j > at);
                assert(kids.len() == self.nodes@[y as int].children.len());
            }
            at = at + 1;
        }
        at
    }

    /// The position in `list` of a node of the highest level.
    fn highest_of(&self, list: &Vec<usize>) -> (at: usize)
        requires
            list@.len() > 0,
            forall|k: int| 0 <= k < list@.len() ==> (#[trigger] list@[k]) < self.nodes@.len(),
        ensures
            at < list@.len(),
            forall|k: int|
                0 <= k < list@.len() ==> self.nodes@[(#[trigger] list@[k]) as int].level
                    <= self.nodes@[list@[at as int] as int].level,
    {
        let mut at: usize = 0;
        let mut k: usize = 1;
        while k < list.len()
            invariant
                forall|k: int| 0 <= k < list@.len() ==> (#[trigger] list@[k]) < self.nodes@.len(),
                0 <= at < k <= list@.len(),
                forall|j: int|
                    0 <= j < k ==> self.nodes@[(#[trigger] list@[j]) as int].level
                        <= self.nodes@[list@[at as int] as int].level,
            decreases list@.len() - k,
        {
            assert(list@[k as int] < self.nodes@.len());
            assert(list@[at as int] < self.nodes@.len());
            if self.nodes[list[k]].level > self.nodes[list[at]].level {
                at = k;
            }
            k = k + 1;
        }
        at
    }

    /// Takes node `t` out of the tree. Its children are left without a
    /// parent and returned, but for the highest of them where `t` was the
    /// root: that one becomes the root.
    fn detach(&mut self, t: usize) -> (res: (Vec<usize>, Ghost<int>))
        requires
            old(self).wf(),
            old(self).is_node(t),
        ensures
            old(self).detached(final(self), t, res.0@, res.1@),
    {
        proof {
            assert(self.node_linked(t));
        }
        let ghost kids = self.nodes@[t as int].children@;
        let mut orphans = self.take_children(t);
        let ghost taken = *self;
        let mut k: usize = 0;
        while k < orphans.len()
            invariant
                orphans@ == kids,
                forall|j: int|
                    0 <= j < kids.len() ==> (#[trigger] kids[j]) < self.nodes@.len() && kids[j] != t,
                0 <= k <= orphans@.len(),
                self.root == taken.root,
                self.free@ == taken.free@,
                self.nodes@.len() == taken.nodes@.len(),
                self.nodes@[t as int] == taken.nodes@[t as int],
                t < self.nodes@.len(),
                forall|i: usize|
                    i < self.nodes@.len() ==> {
                        let n = #[trigger] self.nodes@[i as int];
                        let o = taken.nodes@[i as int];
                        &&& n.point == o.point
                        &&& n.level == o.level
                        &&& n.live == o.live
                        &&& n.children == o.children
                        &&& (n.ancestor == o.ancestor || (n.ancestor is None && kids.contains(i)))
                    },
                forall|j: int| 0 <= j < k ==> self.nodes@[(#[trigger] kids[j]) as int].ancestor is None,
            decreases orphans@.len() - k,
        {
            let o = orphans[k];
            assert(kids[k as int] == o);
            self.nodes[o].ancestor = None;
            k = k + 1;
        }
        let ghost at: int = 0;
        let parent = self.nodes[t].ancestor;
        match parent {
            Some(y) => {
                assert(old(self).is_node(y));
                assert(old(self).node_linked(y));
                assert(self.nodes@[y as int].children == old(self).nodes@[y as int].children) by {
                    assert(taken.nodes@[y as int] == old(self).nodes@[y as int]);
                }
                let idx = self.position_of(y, t);
                self.nodes[y].children.remove(idx);
                proof {
                    at = idx as int;
                }
            },
            None => {
                assert(old(self).root == Some(t));
                if orphans.len() == 0 {
                    self.root = None;
                } else {
                    let m = self.highest_of(&orphans);
                    let top_child = orphans.remove(m);
                    self.root = Some(top_child);
                    proof {
                        at = m as int;
                    }
                }
            },
        }
        self.nodes[t].live = false;
        self.free.push(t);
        proof {
            assert forall|i: usize| i < old(self).nodes@.len() && i != t implies {
                let n = #[trigger] self.nodes@[i as int];
                let o = old(self).nodes@[i as int];
                &&& n.point == o.point
                &&& n.level == o.level
                &&& n.live == o.live
                &&& n.ancestor == (if kids.contains(i) {
                    None
                } else {
                    o.ancestor
                })
                &&& (Some(i) != old(self).nodes@[t as int].ancestor ==> n.children@
                    == o.children@)
            } by {
                assert(taken.nodes@[i as int] == old(self).nodes@[i as int]);
                if kids.contains(i) {
                    let j = choose|j: int| 0 <= j < kids.len() && kids[j] == i;
                    assert(self.nodes@[kids[j] as int].ancestor is None);
                }
            }
        }
        (orphans, Ghost(at))
    }

    /// Whether node `x` must stand in slot `s` of the table of candidates.
    pub(super) open spec fn must_record(&self, x: usize, s: int, q: T) -> bool {
        &&& self.is_node(x)
        &&& self.root != Some(x)
        &&& self.nodes@[x as int].level >= s - 1
        &&& within_scale(self.nodes@[x as int].point.dist(&q), s)
    }

    /// The table of candidates fits the tree as it is now: a node that
    /// stands in the slot of a level is of that level or higher, and every
    /// node but the root that is near enough to `q` stands there.
    pub(super) open spec fn table_ok(&self, table: Seq<Vec<usize>>, low: int, q: T) -> bool {
        &&& table.len() == LEVEL_SLOTS
        &&& forall|s: int, k: int|
            low + 1 <= s < LEVEL_SLOTS && 0 <= k < table[s]@.len() ==> {
                let e = #[trigger] table[s]@[k];
                e < self.nodes@.len() && (self.nodes@[e as int].live ==> self.nodes@[e as int].level
                    >= s - 1)
            }
        &&& forall|s: int, x: usize|
            low + 1 <= s < LEVEL_SLOTS && #[trigger] self.must_record(x, s, q) ==> table[s]@.contains(
                x,
            )
    }

    /// Node `o` waits within the scale of its old parent, whose point was `q`.
    pub(super) open spec fn waits_near(&self, o: usize, low: int, q: T) -> bool {
        &&& low <= self.nodes@[o as int].level + 1
        &&& within_scale(self.nodes@[o as int].point.dist(&q), self.nodes@[o as int].level + 1)
    }

    /// At level `j` neither the root nor a recorded candidate covers node `o`.
    pub(super) open spec fn passed(&self, table: Seq<Vec<usize>>, o: usize, j: int) -> bool {
        &&& self.root matches Some(r) ==> !within_scale(self.node_dist(r, o), j)
        &&& forall|k: int|
            0 <= k < table[j + 1]@.len() && self.nodes@[(#[trigger] table[j + 1]@[k]) as int].live
                ==> !within_scale(self.node_dist(table[j + 1]@[k], o), j)
    }

    /// The table recorded before a node was taken out fits the forest that
    /// is left.
    proof fn lemma_detached_table(
        &self,
        new: &Self,
        t: usize,
        orphans: Seq<usize>,
        at: int,
        table: Seq<Vec<usize>>,
        low: int,
    )
        requires
            self.wf(),
            self.detached(new, t, orphans, at),
            self.recorded(table, low, self.nodes@[t as int].point),
            low >= MIN_LEVEL,
        ensures
            new.table_ok(table, low, self.nodes@[t as int].point),
    {
        let q = self.nodes@[t as int].point;
        assert forall|s: int, k: int|
            low + 1 <= s < LEVEL_SLOTS && 0 <= k < table[s]@.len() implies {
            let e = #[trigger] table[s]@[k];
            e < new.nodes@.len() && (new.nodes@[e as int].live ==> new.nodes@[e as int].level >= s
                - 1)
        } by {
            assert(self.candidates_sound(table[s]@, s - 1));
            let e = table[s]@[k];
            assert(self.is_node(e));
            if e != t {
                assert(new.nodes@[e as int].level == self.nodes@[e as int].level);
            }
        }
        assert forall|s: int, x: usize|
            low + 1 <= s < LEVEL_SLOTS && #[trigger] new.must_record(x, s, q) implies table[s]@.contains(
            x,
        ) by {
            assert(self.candidates_complete(table[s]@, s - 1, q, false));
            assert(x != t);
            assert(new.nodes@[x as int].point == self.nodes@[x as int].point);
            assert(new.nodes@[x as int].live == self.nodes@[x as int].live);
            assert(self.is_candidate(x, s - 1, q, false));
        }
    }

    /// Looks for a new parent of the waiting node `o`: from the level above
    /// its own upward, the first recorded candidate that still is a node
    /// and covers `o`, or else the root where it covers `o` at that level.
    /// Returns the parent and the level at which it covers `o`.
    fn find_adopter(
        &self,
        o: usize,
        table: &Vec<Vec<usize>>,
        r: usize,
        Ghost(pending): Ghost<Set<usize>>,
        Ghost(low): Ghost<int>,
        Ghost(q): Ghost<T>,
    ) -> (res: (usize, i32))
        requires
            self.forest(pending),
            pending.contains(o),
            self.root == Some(r),
            self.table_ok(table@, low, q),
            MIN_LEVEL <= low <= self.nodes@[o as int].level + 1,
        ensures
            self.is_node(res.0),
            res.0 != o,
            self.nodes@[o as int].level < res.1 <= MAX_LEVEL,
            within_scale(self.node_dist(res.0, o), res.1 as int),
            res.0 != r ==> self.nodes@[res.0 as int].level >= res.1,
            forall|j: int| self.nodes@[o as int].level < j < res.1 ==> self.passed(table@, o, j),
    {
        assert(self.is_node(o));
        assert(self.node_grafted(o, pending));
        assert(self.is_node(r));
        let mut level: i32 = self.nodes[o].level + 1;
        loop
            invariant
                self.forest(pending),
                pending.contains(o),
                self.is_node(o),
                self.is_node(r),
                self.root == Some(r),
                self.table_ok(table@, low, q),
                MIN_LEVEL <= low <= self.nodes@[o as int].level + 1,
                self.nodes@[o as int].level < level <= MAX_LEVEL,
                forall|j: int| self.nodes@[o as int].level < j < level ==> self.passed(table@, o, j),
            decreases MAX_LEVEL - level,
        {
            let set = &table[(level + 1) as usize];
            let mut k: usize = 0;
            while k < set.len()
                invariant
                    self.is_node(o),
                    self.table_ok(table@, low, q),
                    MIN_LEVEL <= low <= self.nodes@[o as int].level + 1,
                    self.nodes@[o as int].level < level <= MAX_LEVEL,
                    set == table@[level + 1],
                    0 <= k <= set@.len(),
                    forall|j: int|
                        self.nodes@[o as int].level < j < level ==> self.passed(table@, o, j),
                    forall|j: int|
                        0 <= j < k && self.nodes@[(#[trigger] set@[j]) as int].live ==> !within_scale(
                            self.node_dist(set@[j], o),
                            level as int,
                        ),
                decreases set@.len() - k,
            {
                let e = set[k];
                assert(e == table@[level + 1]@[k as int]);
                if self.nodes[e].live {
                    let d = self.nodes[e].point.distance(&self.nodes[o].point);
                    if is_within_scale(d, level) {
                        return (e, level);
                    }
                }
                k = k + 1;
            }
            let d = self.nodes[r].point.distance(&self.nodes[o].point);
            if is_within_scale(d, level) {
                return (r, level);
            }
            proof {
                assert(self.passed(table@, o, level as int));
                if level == MAX_LEVEL {
                    crate::scale::lemma_u64_within_top(d, 64);
                }
            }
            level = level + 1;
        }
    }

    /// How the arena `new` arises from `self` when the waiting node `o`
    /// becomes a child of `y`, one level below `level`. Where `y` is the
    /// root and lower than `level`, it is raised to `level`.
    pub(super) open spec fn adopted(&self, new: &Self, o: usize, y: usize, level: int) -> bool {
        &&& new.root == self.root
        &&& new.free@ == self.free@
        &&& new.nodes@.len() == self.nodes@.len()
        &&& o < self.nodes@.len()
        &&& y < self.nodes@.len()
        &&& o != y
        &&& forall|i: int|
            0 <= i < self.nodes@.len() && i != o && i != y ==> #[trigger] new.nodes@[i]
                == self.nodes@[i]
        &&& new.nodes@[o as int].point == self.nodes@[o as int].point
        &&& new.nodes@[o as int].children == self.nodes@[o as int].children
        &&& new.nodes@[o as int].live == self.nodes@[o as int].live
        &&& new.nodes@[o as int].level == level - 1
        &&& new.nodes@[o as int].ancestor == Some(y)
        &&& new.nodes@[y as int].point == self.nodes@[y as int].point
        &&& new.nodes@[y as int].ancestor == self.nodes@[y as int].ancestor
        &&& new.nodes@[y as int].live == self.nodes@[y as int].live
        &&& new.nodes@[y as int].children@ == self.nodes@[y as int].children@.push(o)
        &&& new.nodes@[y as int].level == (if self.root == Some(y) && self.nodes@[y as int].level
            < level {
            level
        } else {
            self.nodes@[y as int].level as int
        })
    }

    /// Makes the waiting node `o` a child of `y`, one level below `level`.
    fn adopt(&mut self, o: usize, y: usize, level: i32, r: usize)
        requires
            old(self).root == Some(r),
            o < old(self).nodes@.len(),
            y < old(self).nodes@.len(),
            o != y,
            MIN_LEVEL < level <= MAX_LEVEL,
        ensures
            old(self).adopted(final(self), o, y, level as int),
    {
        if y == r && self.nodes[r].level < level {
            self.nodes[r].level = level;
        }
        self.nodes[o].level = level - 1;
        self.nodes[o].ancestor = Some(y);
        self.nodes[y].children.push(o);
    }

    /// The level up to which node `x` must stay clear of a node that is
    /// placed one level below `level`.
    pub(super) open spec fn clearance(&self, x: usize, level: int) -> int {
        if self.root == Some(x) || level - 1 <= self.nodes@[x as int].level {
            level - 1
        } else {
            self.nodes@[x as int].level as int
        }
    }

    /// A waiting node that no candidate covered below `level` is separated,
    /// one level below `level`, from every other node.
    proof fn lemma_adoption_clear(
        &self,
        table: Seq<Vec<usize>>,
        o: usize,
        level: int,
        low: int,
        q: T,
        pending: Set<usize>,
        x: usize,
    )
        requires
            self.forest(pending),
            pending.contains(o),
            self.table_ok(table, low, q),
            self.waits_near(o, low, q),
            self.root is Some,
            self.nodes@[o as int].level < level <= MAX_LEVEL,
            forall|j: int| self.nodes@[o as int].level < j < level ==> self.passed(table, o, j),
            self.is_node(x),
            x != o,
        ensures
            !within_scale(self.node_dist(o, x), self.clearance(x, level)),
    {
        let po = self.nodes@[o as int].point;
        let px = self.nodes@[x as int].point;
        let lo = self.nodes@[o as int].level as int;
        let lx = self.nodes@[x as int].level as int;
        let j = self.clearance(x, level);
        assert(self.is_node(o));
        assert(self.node_grafted(o, pending));
        assert(self.node_grafted(x, pending));
        assert(self.pair_separated(o, x));
        T::lemma_symmetry(&po, &px);
        if j > lo {
            assert(self.passed(table, o, j));
            if self.root == Some(x) {
            } else if within_scale(po.dist(&px), j) {
                T::lemma_triangle(&px, &po, &q);
                lemma_within_scale_monotonic(po.dist(&q), lo + 1, j);
                lemma_within_scale_sum(px.dist(&po), po.dist(&q), j);
                lemma_within_scale_monotonic(px.dist(&q), j + 1, j + 1);
                assert(self.must_record(x, j + 1, q));
                let set = table[j + 1]@;
                assert(set.contains(x));
                let k = choose|k: int| 0 <= k < set.len() && set[k] == x;
                assert(self.nodes@[table[j + 1]@[k] as int].live);
            }
        }
    }

    /// Giving a waiting node a parent that covers it, at a level up to
    /// which it is clear of the other nodes, keeps the forest's invariant.
    proof fn lemma_adopted_forest(
        &self,
        new: &Self,
        o: usize,
        y: usize,
        level: int,
        pending: Set<usize>,
    )
        requires
            self.forest(pending),
            pending.contains(o),
            self.adopted(new, o, y, level),
            self.is_node(y),
            self.nodes@[o as int].level < level <= MAX_LEVEL,
            within_scale(self.node_dist(y, o), level),
            self.root != Some(y) ==> self.nodes@[y as int].level >= level,
            forall|x: usize| #[trigger]
                self.is_node(x) && x != o ==> !within_scale(
                    self.node_dist(o, x),
                    self.clearance(x, level),
                ),
        ensures
            new.forest(pending.remove(o)),
            new@ == self@,
            forall|i: usize| new.is_node(i) == self.is_node(i),
            forall|i: usize|
                #![trigger new.nodes@[i as int]]
                i < self.nodes@.len() ==> new.nodes@[i as int].point == self.nodes@[i as int].point
                    && new.nodes@[i as int].live == self.nodes@[i as int].live
                    && new.nodes@[i as int].level >= self.nodes@[i as int].level && (i != o
                    && self.root != Some(i) ==> new.nodes@[i as int].level
                    == self.nodes@[i as int].level) && (i != o ==> new.nodes@[i as int].ancestor
                    == self.nodes@[i as int].ancestor),
    {
        let rest = pending.remove(o);
        let r = self.root.unwrap();
        assert(self.is_node(o));
        assert(self.is_node(r));
        assert(self.node_grafted(o, pending));
        assert(self.node_grafted(y, pending));
        assert(self.node_grafted(r, pending));
        assert forall|i: usize|
            #![trigger new.nodes@[i as int]]
            i < self.nodes@.len() implies new.nodes@[i as int].point == self.nodes@[i as int].point
            && new.nodes@[i as int].live == self.nodes@[i as int].live && new.nodes@[i as int].level
            >= self.nodes@[i as int].level && (i != o && self.root != Some(i)
            ==> new.nodes@[i as int].level == self.nodes@[i as int].level) && (i != o
            ==> new.nodes@[i as int].ancestor == self.nodes@[i as int].ancestor) by {
            if i != o && i != y {
                assert(new.nodes@[i as int] == self.nodes@[i as int]);
            }
        }
        assert forall|i: usize| new.is_node(i) == self.is_node(i) by {
            if i < self.nodes@.len() {
                assert(new.nodes@[i as int].live == self.nodes@[i as int].live);
            }
        }
        let kids = self.nodes@[y as int].children@;
        assert(!kids.contains(o)) by {
            if kids.contains(o) {
                let k = choose|k: int| 0 <= k < kids.len() && kids[k] == o;
                assert(self.is_child_of(kids[k], y));
            }
        }
        assert(new.nodes@[y as int].children@[kids.len() as int] == o);
        assert(new.nodes@[r as int].level >= level) by {
            if y != r {
                assert(new.nodes@[r as int].level >= self.nodes@[r as int].level);
            }
        }
        assert forall|i: usize| #[trigger] new.is_node(i) implies new.node_grafted(i, rest)
            && new.node_covered(i) by {
            assert(self.is_node(i));
            assert(self.node_grafted(i, pending));
            assert(self.node_covered(i));
            let n = new.nodes@[i as int];
            let old_n = self.nodes@[i as int];
            assert(new.nodes@[i as int].level >= self.nodes@[i as int].level);
            assert forall|k: int| 0 <= k < n.children@.len() implies new.is_child_of(
                #[trigger] n.children@[k],
                i,
            ) by {
                if i == y && k == kids.len() {
                } else {
                    let c = old_n.children@[k];
                    assert(n.children@[k] == c);
                    assert(self.is_child_of(c, i));
                    assert(self.node_grafted(c, pending));
                    assert(c != o);
                    if c != y {
                        assert(new.nodes@[c as int] == self.nodes@[c as int]);
                    }
                }
            }
            if i == o {
                T::lemma_symmetry(&self.nodes@[y as int].point, &self.nodes@[o as int].point);
            } else {
                match old_n.ancestor {
                    None => {},
                    Some(p) => {
                        assert(self.node_grafted(p, pending));
                        assert(new.nodes@[p as int].level >= self.nodes@[p as int].level);
                        assert(new.nodes@[p as int].point == self.nodes@[p as int].point);
                        if p == y {
                            let k = choose|k: int| 0 <= k < kids.len() && kids[k] == i;
                            assert(new.nodes@[y as int].children@[k] == i);
                        } else if p != o {
                            assert(new.nodes@[p as int] == self.nodes@[p as int]);
                        }
                    },
                }
            }
        }
        assert forall|a: usize, b: usize|
            #![trigger new.is_node(a), new.is_node(b)]
            new.is_node(a) && new.is_node(b) && a != b implies new.pair_separated(a, b) by {
            assert(self.is_node(a) && self.is_node(b));
            assert(self.pair_separated(a, b));
            assert(self.node_grafted(a, pending));
            assert(self.node_grafted(b, pending));
            assert(new.nodes@[a as int].point == self.nodes@[a as int].point);
            assert(new.nodes@[b as int].point == self.nodes@[b as int].point);
            assert(new.nodes@[a as int].level >= self.nodes@[a as int].level);
            assert(new.nodes@[b as int].level >= self.nodes@[b as int].level);
            if a == o || b == o {
                let x = if a == o {
                    b
                } else {
                    a
                };
                assert(!within_scale(self.node_dist(o, x), self.clearance(x, level)));
                T::lemma_symmetry(&self.nodes@[o as int].point, &self.nodes@[x as int].point);
            }
        }
        assert(new.free_ok()) by {
            assert forall|k: int| 0 <= k < new.free@.len() implies (#[trigger] new.free@[k])
                < new.nodes@.len() && !new.nodes@[new.free@[k] as int].live by {
                let f = self.free@[k];
                assert(new.nodes@[f as int].live == self.nodes@[f as int].live);
            }
        }
        assert forall|i: usize| rest.contains(i) implies #[trigger] new.is_node(i) by {
            assert(self.is_node(i));
        }
        assert(new@ =~= self@) by {
            assert forall|p: T| new@.contains(p) <==> self@.contains(p) by {
                if new@.contains(p) {
                    let i = choose|i: usize| #[trigger]
                        new.is_node(i) && new.nodes@[i as int].point == p;
                    assert(self.is_node(i));
                    assert(new.nodes@[i as int].point == self.nodes@[i as int].point);
                }
                if self@.contains(p) {
                    let i = choose|i: usize| #[trigger]
                        self.is_node(i) && self.nodes@[i as int].point == p;
                    assert(new.is_node(i));
                    assert(new.nodes@[i as int].point == self.nodes@[i as int].point);
                }
            }
        }
    }

    /// Taking a node out shrinks the tree by that node.
    proof fn lemma_detached_shrunk(&self, new: &Self, t: usize, orphans: Seq<usize>, at: int)
        requires
            self.wf(),
            self.detached(new, t, orphans, at),
        ensures
            self.shrunk(new, t),
    {
        let kids = self.nodes@[t as int].children@;
        self.lemma_detached_forest(new, t, orphans, at);
        assert(self.node_linked(t));
        assert forall|i: usize| #[trigger] self.is_node(i) && i != t implies {
            &&& new.is_node(i)
            &&& new.point(i) == self.point(i)
            &&& new.level(i) >= self.level(i)
            &&& self.parent(i) != Some(t) ==> new.parent(i) == self.parent(i)
            &&& self.parent(i) != Some(t) && new.root_node() != Some(i) ==> new.level(i)
                == self.level(i)
        } by {
            assert(new.is_node(i));
            assert(new.nodes@[i as int].point == self.nodes@[i as int].point);
            if kids.contains(i) {
                let k = choose|k: int| 0 <= k < kids.len() && kids[k] == i;
                assert(self.is_child_of(kids[k], t));
            }
        }
        if self.root == Some(t) {
            match new.root {
                None => {
                    assert forall|i: usize| #[trigger] self.is_node(i) implies i == t by {
                        if i != t {
                            assert(new.is_node(i));
                        }
                    }
                },
                Some(c) => {
                    assert(kids.contains(kids[at]));
                    assert(self.is_child_of(kids[at], t));
                    assert forall|i: usize| #[trigger]
                        self.is_node(i) && self.parent(i) == Some(t) implies self.level(i)
                        <= self.level(c) by {
                        assert(self.node_linked(i));
                        let k = choose|k: int| 0 <= k < kids.len() && kids[k] == i;
                        assert(self.nodes@[kids[k] as int].level <= self.nodes@[kids[at] as int].level);
                    }
                },
            }
        } else {
            assert(self.nodes@[t as int].ancestor is Some);
        }
    }

    /// Giving a child of the node that was taken out a new parent leaves
    /// the tree shrunk by that node.
    proof fn lemma_adopted_shrunk(&self, before: &Self, new: &Self, t: usize, o: usize)
        requires
            self.shrunk(before, t),
            self.is_node(o),
            self.parent(o) == Some(t),
            before.root == new.root,
            forall|i: usize| new.is_node(i) == before.is_node(i),
            forall|i: usize|
                #![trigger new.nodes@[i as int]]
                i < before.nodes@.len() ==> new.nodes@[i as int].point
                    == before.nodes@[i as int].point && new.nodes@[i as int].level
                    >= before.nodes@[i as int].level && (i != o && before.root != Some(i)
                    ==> new.nodes@[i as int].level == before.nodes@[i as int].level) && (i != o
                    ==> new.nodes@[i as int].ancestor == before.nodes@[i as int].ancestor),
        ensures
            self.shrunk(new, t),
    {
        assert forall|i: usize| #[trigger] self.is_node(i) && i != t implies {
            &&& new.is_node(i)
            &&& new.point(i) == self.point(i)
            &&& new.level(i) >= self.level(i)
            &&& self.parent(i) != Some(t) ==> new.parent(i) == self.parent(i)
            &&& self.parent(i) != Some(t) && new.root_node() != Some(i) ==> new.level(i)
                == self.level(i)
        } by {
            assert(before.is_node(i));
            assert(new.nodes@[i as int].point == before.nodes@[i as int].point);
        }
        assert forall|i: usize| #[trigger] new.is_node(i) implies self.is_node(i) by {
            assert(before.is_node(i));
        }
    }

    /// In a tree that is shrunk by a node, the children of that node have
    /// found their place.
    proof fn lemma_shrunk_rehomed(&self, new: &Self, t: usize)
        requires
            self.linked(),
            self.shrunk(new, t),
            new.wf(),
        ensures
            self.rehomed(new, t),
    {
        assert forall|c: usize| #[trigger]
            self.is_node(c) && self.parent(c) == Some(t) && new.root_node() != Some(
                c,
            ) implies {
            &&& new.parent(c) matches Some(y) && new.is_node(y) && new.level(c) < new.level(y)
                && within_scale(new.node_dist(y, c), new.level(c) + 1)
            &&& forall|x: usize, j: int|
                #![trigger new.is_node(x), within_scale(new.node_dist(x, c), j)]
                new.is_node(x) && x != c && self.level(c) < j <= new.level(c) && j <= new.level(x)
                    ==> !within_scale(new.node_dist(x, c), j)
        } by {
            assert(c != t) by {
                assert(self.node_linked(c));
            }
            assert(new.is_node(c));
            assert(new.node_linked(c));
            assert(new.node_covered(c));
            assert forall|x: usize, j: int|
                #![trigger new.is_node(x), within_scale(new.node_dist(x, c), j)]
                new.is_node(x) && x != c && self.level(c) < j <= new.level(c) && j <= new.level(
                    x,
                ) implies !within_scale(new.node_dist(x, c), j) by {
                assert(new.pair_separated(x, c));
                if within_scale(new.node_dist(x, c), j) {
                    let low = if new.level(x) <= new.level(c) {
                        new.level(x)
                    } else {
                        new.level(c)
                    };
                    lemma_within_scale_monotonic(new.node_dist(x, c), j, low);
                }
            }
        }
    }

    /// The table still fits the tree once a waiting node has got its parent
    /// and stands in the slots of the levels that it has risen through.
    proof fn lemma_adopted_table(
        &self,
        new: &Self,
        o: usize,
        y: usize,
        level: int,
        pending: Set<usize>,
        table: Seq<Vec<usize>>,
        raised: Seq<Vec<usize>>,
        low: int,
        q: T,
    )
        requires
            self.forest(pending),
            pending.contains(o),
            self.adopted(new, o, y, level),
            self.nodes@[o as int].level < level <= MAX_LEVEL,
            self.table_ok(table, low, q),
            MIN_LEVEL <= low,
            risen(table, raised, o, self.nodes@[o as int].level as int, level - 1),
        ensures
            new.table_ok(raised, low, q),
    {
        let from = self.nodes@[o as int].level as int;
        assert(self.is_node(o));
        assert(self.node_grafted(o, pending));
        assert forall|s: int, k: int|
            low + 1 <= s < LEVEL_SLOTS && 0 <= k < raised[s]@.len() implies {
            let e = #[trigger] raised[s]@[k];
            e < new.nodes@.len() && (new.nodes@[e as int].live ==> new.nodes@[e as int].level >= s
                - 1)
        } by {
            if k < table[s]@.len() {
                let e = table[s]@[k];
                assert(raised[s]@[k] == e);
                if e != o && e != y {
                    assert(new.nodes@[e as int] == self.nodes@[e as int]);
                }
            }
        }
        assert forall|s: int, x: usize|
            low + 1 <= s < LEVEL_SLOTS && #[trigger] new.must_record(x, s, q) implies raised[s]@.contains(
            x,
        ) by {
            if x != o && x != y {
                assert(new.nodes@[x as int] == self.nodes@[x as int]);
            }
            if x == o && from + 1 < s {
                assert(raised[s]@[table[s]@.len() as int] == o);
            } else {
                assert(self.must_record(x, s, q));
                let set = table[s]@;
                assert(set.contains(x));
                let k = choose|k: int| 0 <= k < set.len() && set[k] == x;
                assert(raised[s]@[k] == x);
            }
        }
    }

    /// Writes node `o` into the slots of the levels above `from` up to `to`.
    fn raise_in_table(table: &mut Vec<Vec<usize>>, o: usize, from: i32, to: i32)
        requires
            old(table)@.len() == LEVEL_SLOTS,
            MIN_LEVEL <= from <= to < MAX_LEVEL,
        ensures
            risen(old(table)@, final(table)@, o, from as int, to as int),
    {
        let mut level: i32 = from;
        while level < to
            invariant
                MIN_LEVEL <= from <= level <= to < MAX_LEVEL,
                table@.len() == LEVEL_SLOTS,
                old(table)@.len() == LEVEL_SLOTS,
                risen(old(table)@, table@, o, from as int, level as int),
            decreases to - level,
        {
            level = level + 1;
            let ghost before = table@;
            table[(level + 1) as usize].push(o);
            proof {
                assert forall|s: int| 0 <= s < LEVEL_SLOTS implies (#[trigger] table@[s])@ == (if from
                    + 1 < s <= level + 1 {
                    old(table)@[s]@.push(o)
                } else {
                    old(table)@[s]@
                }) by {
                    if s != level + 1 {
                        assert(table@[s] == before[s]);
                    }
                }
            }
        }
    }

    /// Removes `target` from the tree.
    ///
    /// The node of `target` is taken out. Where it was the root, its highest
    /// child becomes the root. Each of its other children becomes a child
    /// of the lowest candidate that covers it, among those that the search
    /// for `target` has recorded and the root, and is placed one level
    /// below the level at which it is covered; the root is raised where it
    /// must be to cover the child.
    pub fn remove(&mut self, target: &T) -> (res: Result<(), RemoveError>)
        requires
            old(self).wf(),
        ensures
            final(self).wf(),
            match res {
                Ok(()) => {
                    &&& old(self)@.contains(*target)
                    &&& final(self)@ == old(self)@.remove(*target)
                    &&& exists|t: usize|
                        #[trigger] old(self).shrunk(final(self), t) && old(self).point(t) == *target
                            && old(self).rehomed(final(self), t)
                },
                Err(RemoveError::EmptyTree) => old(self)@ == Set::<T>::empty() && *final(self)
                    == *old(self),
                Err(RemoveError::NotFound) => old(self)@ != Set::<T>::empty() && !old(
                    self,
                )@.contains(*target) && *final(self) == *old(self),
            },
    {
        let r = match self.root {
            None => {
                proof {
                    assert(self@ =~= Set::<T>::empty());
                }
                return Err(RemoveError::EmptyTree);
            },
            Some(r) => r,
        };
        proof {
            assert(self.is_node(r));
            assert(self@.contains(self.nodes@[r as int].point));
        }
        let (mut table, found, low) = self.locate(target, r);
        let t = match found {
            None => {
                return Err(RemoveError::NotFound);
            },
            Some(t) => t,
        };
        let (orphans, Ghost(at)) = self.detach(t);
        proof {
            old(self).lemma_detached_forest(self, t, orphans@, at);
            old(self).lemma_detached_table(self, t, orphans@, at, table@, low as int);
            old(self).lemma_detached_shrunk(self, t, orphans@, at);
            assert(waiting(orphans@, 0) =~= orphans@.to_set());
            assert(old(self)@.contains(*target));
        }
        let r = match self.root {
            None => {
                proof {
                    assert(orphans@.to_set() =~= Set::<usize>::empty());
                    self.lemma_forest_settled();
                    old(self).lemma_shrunk_rehomed(self, t);
                }
                return Ok(());
            },
            Some(r) => r,
        };
        let ghost q = *target;
        proof {
            assert forall|j: int| 0 <= j < orphans@.len() implies self.waits_near(
                #[trigger] orphans@[j],
                low as int,
                q,
            ) by {
                let o = orphans@[j];
                assert(old(self).is_child_of(o, t));
                assert(old(self).node_covered(o));
                assert(self.is_node(o));
                let kids = old(self).nodes@[t as int].children@;
                assert(kids.contains(o)) by {
                    assert(old(self).node_linked(o));
                }
                let k = choose|k: int| 0 <= k < kids.len() && kids[k] == o;
                assert(low <= old(self).nodes@[kids[k] as int].level + 1);
                T::lemma_symmetry(&old(self).nodes@[o as int].point, &q);
            }
        }
        let mut k: usize = 0;
        while k < orphans.len()
            invariant
                0 <= k <= orphans@.len(),
                orphans@.no_duplicates(),
                self.root == Some(r),
                self.forest(waiting(orphans@, k as int)),
                self.table_ok(table@, low as int, q),
                MIN_LEVEL <= low,
                old(self).shrunk(self, t),
                old(self).point(t) == q,
                forall|j: int|
                    0 <= j < orphans@.len() ==> old(self).is_child_of(#[trigger] orphans@[j], t),
                forall|j: int|
                    k <= j < orphans@.len() ==> self.waits_near(
                        #[trigger] orphans@[j],
                        low as int,
                        q,
                    ),
                self@ == old(self)@.remove(q),
            decreases orphans@.len() - k,
        {
            let o = orphans[k];
            let ghost pending = waiting(orphans@, k as int);
            let ghost before = *self;
            let ghost recorded = table@;
            proof {
                assert(pending.contains(o));
                assert(self.waits_near(orphans@[k as int], low as int, q));
                assert(self.is_node(o));
                assert(self.node_grafted(o, pending));
            }
            let (y, level) = self.find_adopter(o, &table, r, Ghost(pending), Ghost(low as int), Ghost(q));
            let from = self.nodes[o].level;
            Self::raise_in_table(&mut table, o, from, level - 1);
            self.adopt(o, y, level, r);
            proof {
                assert forall|x: usize| #[trigger]
                    before.is_node(x) && x != o implies !within_scale(
                    before.node_dist(o, x),
                    before.clearance(x, level as int),
                ) by {
                    before.lemma_adoption_clear(recorded, o, level as int, low as int, q, pending, x);
                }
                before.lemma_adopted_forest(self, o, y, level as int, pending);
                assert(old(self).is_child_of(orphans@[k as int], t));
                old(self).lemma_adopted_shrunk(&before, self, t, o);
                before.lemma_adopted_table(
                    self,
                    o,
                    y,
                    level as int,
                    pending,
                    recorded,
                    table@,
                    low as int,
                    q,
                );
                assert(pending.remove(o) =~= waiting(orphans@, k + 1)) by {
                    assert forall|x: usize| pending.remove(o).contains(x) <==> waiting(
                        orphans@,
                        k + 1,
                    ).contains(x) by {
                        if pending.remove(o).contains(x) {
                            let j = choose|j: int| k <= j < orphans@.len() && orphans@[j] == x;
                            assert(j != k);
                        }
                        if waiting(orphans@, k + 1).contains(x) {
                            let j = choose|j: int| k + 1 <= j < orphans@.len() && orphans@[j] == x;
                            assert(orphans@[j] != orphans@[k as int]);
                        }
                    }
                }
                assert forall|j: int| k + 1 <= j < orphans@.len() implies self.waits_near(
                    #[trigger] orphans@[j],
                    low as int,
                    q,
                ) by {
                    let w = orphans@[j];
                    assert(before.waits_near(w, low as int, q));
                    assert(pending.contains(w));
                    assert(before.is_node(w));
                    assert(w != o);
                    assert(before.root != Some(w));
                    assert(self.nodes@[w as int].level == before.nodes@[w as int].level);
                    assert(self.nodes@[w as int].point == before.nodes@[w as int].point);
                }
            }
            k = k + 1;
        }
        proof {
            assert(waiting(orphans@, orphans@.len() as int) =~= Set::<usize>::empty());
            self.lemma_forest_settled();
            old(self).lemma_shrunk_rehomed(self, t);
        }
        Ok(())
    }
}

/// The entries of `list` from position `from` on.
pub open spec fn waiting(list: Seq<usize>, from: int) -> Set<usize> {
    Set::new(|x: usize| exists|j: int| from <= j < list.len() && 0 <= j && list[j] == x)
}

/// `raised` is `table` with `o` added to the slots of the levels above
/// `from` up to `to`.
pub open spec fn risen(
    table: Seq<Vec<usize>>,
    raised: Seq<Vec<usize>>,
    o: usize,
    from: int,
    to: int,
) -> bool {
    &&& raised.len() == table.len()
    &&& forall|s: int|
        0 <= s < table.len() ==> (#[trigger] raised[s])@ == (if from + 1 < s <= to + 1 {
            table[s]@.push(o)
        } else {
            table[s]@
        })
}

/// What is left of a list without repeats when the entry at `at` is removed.
pub proof fn lemma_remove_facts(s: Seq<usize>, at: int)
    requires
        s.no_duplicates(),
    ensures
        0 <= at < s.len() ==> {
            &&& s.remove(at).no_duplicates()
            &&& !s.remove(at).contains(s[at])
            &&& forall|x: usize| s.remove(at).contains(x) ==> s.contains(x)
            &&& forall|x: usize| s.contains(x) && x != s[at] ==> s.remove(at).contains(x)
        },
{
    if 0 <= at < s.len() {
        let r = s.remove(at);
        assert forall|k: int| 0 <= k < r.len() implies r[k] == s[if k < at {
            k
        } else {
            k + 1
        }] by {}
        assert forall|x: usize| r.contains(x) implies s.contains(x) by {
            let k = choose|k: int| 0 <= k < r.len() && r[k] == x;
            assert(s[if k < at {
                k
            } else {
                k + 1
            }] == x);
        }
        assert forall|x: usize| s.contains(x) && x != s[at] implies r.contains(x) by {
            let k = choose|k: int| 0 <= k < s.len() && s[k] == x;
            if k < at {
                assert(r[k] == x);
            } else {
                assert(r[k - 1] == x);
            }
        }
        if r.contains(s[at]) {
            let k = choose|k: int| 0 <= k < r.len() && r[k] == s[at];
        }
    }
}

} // verus!
