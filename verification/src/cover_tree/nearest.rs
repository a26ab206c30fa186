//! Nearest-neighbour search: expand the cover set level by level and drop
//! the nodes below which nothing can beat the best point found so far.
use crate::cover_tree::{CoverTree, Distance};
use crate::scale::{
    below_scale_plus, is_below_scale_plus, lemma_below_scale_plus_monotonic,
    lemma_below_scale_plus_sum, MAX_LEVEL, MIN_LEVEL,
};
use vstd::prelude::*;

verus! {

impl<T: Distance> CoverTree<T> {
    /// Whether node `x` must be in the cover set of `level`, given that a
    /// point at distance `best` from `q` is known.
    pub(super) open spec fn in_reach(&self, x: usize, level: int, q: T, best: nat) -> bool {
        &&& self.is_node(x)
        &&& self.nodes@[x as int].level >= level
        &&& below_scale_plus(self.nodes@[x as int].point.dist(&q), level + 1, best)
    }

    /// Every node that must be in the cover set of `level` is in `set`.
    pub(super) open spec fn reach_complete(
        &self,
        set: Seq<usize>,
        level: int,
        q: T,
        best: nat,
    ) -> bool {
        forall|x: usize| #[trigger] self.in_reach(x, level, q, best) ==> set.contains(x)
    }

    /// No entry of `set` is closer to `q` than `best`.
    pub(super) open spec fn none_closer(&self, set: Seq<usize>, q: T, best: nat) -> bool {
        forall|k: int|
            0 <= k < set.len() ==> self.nodes@[#[trigger] set[k] as int].point.dist(&q) >= best
    }

    /// No child of node `y` first appears below `level`.
    pub(super) open spec fn settled(&self, y: usize, level: int) -> bool {
        forall|j: int|
            0 <= j < self.nodes@[y as int].children@.len() ==> self.nodes@[(
            #[trigger] self.nodes@[y as int].children@[j]) as int].level >= level
    }

    /// The children of node `y` that first appear at `level - 1` are in
    /// `all`, up to the child at position `upto`.
    pub(super) open spec fn children_gathered(
        &self,
        y: usize,
        level: int,
        all: Seq<usize>,
        upto: int,
    ) -> bool {
        forall|j: int|
            0 <= j < upto ==> self.nodes@[(#[trigger] self.nodes@[y as int].children@[j]) as int].level
                == level - 1 ==> all.contains(self.nodes@[y as int].children@[j])
    }

    /// Node `y` and its children that first appear at `level - 1` are in `all`.
    pub(super) open spec fn gathered(&self, y: usize, level: int, all: Seq<usize>) -> bool {
        &&& all.contains(y)
        &&& self.children_gathered(y, level, all, self.nodes@[y as int].children@.len() as int)
    }

    /// A closer point cannot hide anywhere once the cover set has no
    /// children left to expand.
    proof fn lemma_reach_closed(&self, set: Seq<usize>, level: int, low: int, q: T, best: nat)
        requires
            self.linked(),
            self.covered(),
            self.root matches Some(r) && level <= self.nodes@[r as int].level,
            self.candidates_sound(set, level),
            self.reach_complete(set, level, q, best),
            forall|k: int| 0 <= k < set.len() ==> self.settled(#[trigger] set[k], level),
            low <= level,
        ensures
            self.reach_complete(set, low, q, best),
        decreases level - low,
    {
        if low < level {
            self.lemma_reach_closed(set, level, low + 1, q, best);
            assert forall|x: usize| #[trigger] self.in_reach(x, low, q, best) implies set.contains(
                x,
            ) by {
                let px = self.nodes@[x as int].point;
                assert(self.node_linked(x));
                assert(self.node_covered(x));
                if self.nodes@[x as int].level >= low + 1 {
                    lemma_below_scale_plus_monotonic(px.dist(&q), low + 1, low + 2, best, best);
                    assert(self.in_reach(x, low + 1, q, best));
                } else {
                    let y = self.nodes@[x as int].ancestor.unwrap();
                    let py = self.nodes@[y as int].point;
                    T::lemma_triangle(&py, &px, &q);
                    lemma_below_scale_plus_sum(px.dist(&q), py.dist(&px), low + 1, best);
                    assert(self.in_reach(y, low + 1, q, best));
                    let k = choose|k: int| 0 <= k < set.len() && set[k] == y;
                    assert(self.settled(set[k], level));
                    let j = choose|j: int|
                        0 <= j < self.nodes@[y as int].children@.len()
                            && self.nodes@[y as int].children@[j] == x;
                    assert(self.nodes@[self.nodes@[y as int].children@[j] as int].level >= level);
                }
            }
        }
    }

    /// Where the cover set is complete and settled, `best` is the least
    /// distance from `q` to a point of the tree.
    proof fn lemma_best_is_least(&self, set: Seq<usize>, level: int, q: T, best: nat, x: usize)
        requires
            self.linked(),
            self.covered(),
            self.root matches Some(r) && level <= self.nodes@[r as int].level,
            self.candidates_sound(set, level),
            self.reach_complete(set, level, q, best),
            self.none_closer(set, q, best),
            forall|k: int| 0 <= k < set.len() ==> self.settled(#[trigger] set[k], level),
            self.is_node(x),
        ensures
            self.nodes@[x as int].point.dist(&q) >= best,
    {
        let d = self.nodes@[x as int].point.dist(&q);
        if d < best {
            let lx = self.nodes@[x as int].level as int;
            let low = if lx < level {
                lx
            } else {
                level
            };
            self.lemma_reach_closed(set, level, low, q, best);
            if low + 1 >= 0 {
                vstd::arithmetic::power2::lemma_pow2_pos((low + 1) as nat);
            }
            assert(self.in_reach(x, low, q, best));
            let k = choose|k: int| 0 <= k < set.len() && set[k] == x;
            assert(self.nodes@[set[k] as int].point.dist(&q) >= best);
        }
    }

    /// The cover set of `level - 1` before pruning: the nodes of `cur` and
    /// their children that first appear at `level - 1`. Also returns the
    /// closest node seen so far with its distance, and whether a child
    /// of `cur` still waits at `level - 1` or below.
    fn gather(&self, cur: &Vec<usize>, level: i32, q: &T, first: usize, first_d: u64) -> (res: (
        Vec<usize>,
        usize,
        u64,
        bool,
    ))
        requires
            self.linked(),
            self.candidates_sound(cur@, level as int),
            self.none_closer(cur@, *q, first_d as nat),
            MIN_LEVEL <= level <= MAX_LEVEL,
            self.is_node(first),
            first_d == self.nodes@[first as int].point.dist(q),
        ensures
            self.candidates_sound(res.0@, level - 1),
            self.none_closer(res.0@, *q, res.2 as nat),
            self.is_node(res.1),
            res.2 == self.nodes@[res.1 as int].point.dist(q),
            res.2 <= first_d,
            forall|k: int| 0 <= k < cur@.len() ==> self.gathered(#[trigger] cur@[k], level as int, res.0@),
            !res.3 ==> forall|k: int| 0 <= k < cur@.len() ==> self.settled(#[trigger] cur@[k], level as int),
            res.3 ==> level >= 0,
    {
        let mut all: Vec<usize> = Vec::new();
        let mut best: usize = first;
        let mut best_d: u64 = first_d;
        let mut remaining: bool = false;
        let mut a: usize = 0;
        while a < cur.len()
            invariant
                self.linked(),
                self.candidates_sound(cur@, level as int),
                self.none_closer(cur@, *q, best_d as nat),
                MIN_LEVEL <= level <= MAX_LEVEL,
                0 <= a <= cur@.len(),
                self.candidates_sound(all@, level - 1),
                self.none_closer(all@, *q, best_d as nat),
                self.is_node(best),
                best_d == self.nodes@[best as int].point.dist(q),
                best_d <= first_d,
                forall|k: int| 0 <= k < a ==> self.gathered(#[trigger] cur@[k], level as int, all@),
                !remaining ==> forall|k: int|
                    0 <= k < a ==> self.settled(#[trigger] cur@[k], level as int),
                remaining ==> level >= 0,
            decreases cur@.len() - a,
        {
            let y = cur[a];
            assert(self.is_node(cur@[a as int]));
            assert(self.node_linked(y));
            let ghost before = all@;
            all.push(y);
            proof {
                assert(self.nodes@[cur@[a as int] as int].point.dist(q) >= best_d);
                self.lemma_push_gathered(before, y, level as int, *q, best_d as nat, cur@, a as int);
            }
            let mut b: usize = 0;
            let ghost was_remaining = remaining;
            while b < self.nodes[y].children.len()
                invariant
                    self.linked(),
                    self.candidates_sound(cur@, level as int),
                    self.none_closer(cur@, *q, best_d as nat),
                    MIN_LEVEL <= level <= MAX_LEVEL,
                    0 <= a < cur@.len(),
                    y == cur@[a as int],
                    self.is_node(y),
                    self.node_linked(y),
                    0 <= b <= self.nodes@[y as int].children@.len(),
                    self.candidates_sound(all@, level - 1),
                    self.none_closer(all@, *q, best_d as nat),
                    self.is_node(best),
                    best_d == self.nodes@[best as int].point.dist(q),
                    best_d <= first_d,
                    forall|k: int|
                        0 <= k < a ==> self.gathered(#[trigger] cur@[k], level as int, all@),
                    all@.contains(y),
                    self.children_gathered(y, level as int, all@, b as int),
                    !remaining ==> forall|k: int|
                        0 <= k < a ==> self.settled(#[trigger] cur@[k], level as int),
                    !remaining ==> forall|j: int|
                        0 <= j < b ==> self.nodes@[(
                        #[trigger] self.nodes@[y as int].children@[j]) as int].level >= level,
                    remaining ==> level >= 0,
                decreases self.nodes@[y as int].children@.len() - b,
            {
                let c = self.nodes[y].children[b];
                assert(self.is_child_of(c, y));
                assert(self.node_linked(c));
                let child_level = self.nodes[c].level;
                if child_level == level - 1 {
                    let dc = self.nodes[c].point.distance(q);
                    if dc < best_d {
                        best_d = dc;
                        best = c;
                    }
                    let ghost before = all@;
                    all.push(c);
                    proof {
                        self.lemma_push_gathered(
                            before,
                            c,
                            level as int,
                            *q,
                            best_d as nat,
                            cur@,
                            a as int,
                        );
                        assert(self.children_gathered(y, level as int, before, b as int));
                    }
                }
                if child_level <= level - 1 {
                    remaining = true;
                }
                b = b + 1;
            }
            a = a + 1;
        }
        (all, best, best_d, remaining)
    }

    proof fn lemma_push_gathered(
        &self,
        before: Seq<usize>,
        e: usize,
        level: int,
        q: T,
        best: nat,
        cur: Seq<usize>,
        a: int,
    )
        requires
            0 <= a <= cur.len(),
            self.is_node(e),
            self.nodes@[e as int].level >= level - 1,
            self.nodes@[e as int].point.dist(&q) >= best,
            self.candidates_sound(before, level - 1),
            self.none_closer(before, q, best),
            forall|k: int| 0 <= k < a ==> self.gathered(#[trigger] cur[k], level, before),
        ensures
            self.candidates_sound(before.push(e), level - 1),
            self.none_closer(before.push(e), q, best),
            forall|k: int| 0 <= k < a ==> self.gathered(#[trigger] cur[k], level, before.push(e)),
            forall|x: usize| before.contains(x) ==> before.push(e).contains(x),
            before.push(e).contains(e),
            forall|y: usize, b: int|
                self.children_gathered(y, level, before, b) ==> self.children_gathered(
                    y,
                    level,
                    before.push(e),
                    b,
                ),
    {
        let after = before.push(e);
        assert forall|x: usize| before.contains(x) implies after.contains(x) by {
            let i = choose|i: int| 0 <= i < before.len() && before[i] == x;
            assert(after[i] == x);
        }
        assert(after[before.len() as int] == e);
        assert forall|k: int| 0 <= k < a implies self.gathered(#[trigger] cur[k], level, after) by {
            assert(self.gathered(cur[k], level, before));
        }
    }

    /// Keeps of `all` the nodes that are closer to `q` than `2^level + best_d`.
    fn prune(&self, all: &Vec<usize>, level: i32, q: &T, best_d: u64) -> (next: Vec<usize>)
        requires
            self.candidates_sound(all@, level - 1),
            self.none_closer(all@, *q, best_d as nat),
        ensures
            self.candidates_sound(next@, level - 1),
            self.none_closer(next@, *q, best_d as nat),
            forall|k: int|
                0 <= k < all@.len() && below_scale_plus(
                    self.nodes@[(#[trigger] all@[k]) as int].point.dist(q),
                    level as int,
                    best_d as nat,
                ) ==> next@.contains(all@[k]),
    {
        let mut next: Vec<usize> = Vec::new();
        let mut a: usize = 0;
        while a < all.len()
            invariant
                self.candidates_sound(all@, level - 1),
                self.none_closer(all@, *q, best_d as nat),
                0 <= a <= all@.len(),
                self.candidates_sound(next@, level - 1),
                self.none_closer(next@, *q, best_d as nat),
                forall|k: int|
                    0 <= k < a && below_scale_plus(
                        self.nodes@[(#[trigger] all@[k]) as int].point.dist(q),
                        level as int,
                        best_d as nat,
                    ) ==> next@.contains(all@[k]),
            decreases all@.len() - a,
        {
            let e = all[a];
            assert(self.is_node(all@[a as int]));
            assert(self.nodes@[all@[a as int] as int].point.dist(q) >= best_d);
            let d = self.nodes[e].point.distance(q);
            if is_below_scale_plus(d, level, best_d) {
                let ghost before = next@;
                next.push(e);
                proof {
                    assert(next@[before.len() as int] == e);
                    assert forall|x: usize| before.contains(x) implies next@.contains(x) by {
                        let i = choose|i: int| 0 <= i < before.len() && before[i] == x;
                        assert(next@[i] == x);
                    }
                }
            }
            a = a + 1;
        }
        next
    }

    /// The pruned cover set of `level - 1` holds every node that must be in it.
    proof fn lemma_pruned_complete(
        &self,
        cur: Seq<usize>,
        all: Seq<usize>,
        next: Seq<usize>,
        level: int,
        q: T,
        old_best: nat,
        best: nat,
    )
        requires
            self.linked(),
            self.covered(),
            self.root matches Some(r) && level <= self.nodes@[r as int].level,
            best <= old_best,
            self.reach_complete(cur, level, q, old_best),
            forall|k: int| 0 <= k < cur.len() ==> self.gathered(#[trigger] cur[k], level, all),
            forall|k: int|
                0 <= k < all.len() && below_scale_plus(
                    self.nodes@[(#[trigger] all[k]) as int].point.dist(&q),
                    level,
                    best,
                ) ==> next.contains(all[k]),
        ensures
            self.reach_complete(next, level - 1, q, best),
    {
        assert forall|x: usize| #[trigger] self.in_reach(x, level - 1, q, best) implies next.contains(
            x,
        ) by {
            let px = self.nodes@[x as int].point;
            assert(self.node_linked(x));
            assert(self.node_covered(x));
            if self.nodes@[x as int].level >= level {
                lemma_below_scale_plus_monotonic(px.dist(&q), level, level + 1, best, old_best);
                assert(self.in_reach(x, level, q, old_best));
                let k = choose|k: int| 0 <= k < cur.len() && cur[k] == x;
                assert(self.gathered(cur[k], level, all));
                let i = choose|i: int| 0 <= i < all.len() && all[i] == x;
                assert(next.contains(all[i]));
            } else {
                let y = self.nodes@[x as int].ancestor.unwrap();
                let py = self.nodes@[y as int].point;
                T::lemma_triangle(&py, &px, &q);
                lemma_below_scale_plus_sum(px.dist(&q), py.dist(&px), level, best);
                lemma_below_scale_plus_monotonic(
                    px.dist(&q) + py.dist(&px),
                    level + 1,
                    level + 1,
                    best,
                    old_best,
                );
                assert(self.in_reach(y, level, q, old_best));
                let k = choose|k: int| 0 <= k < cur.len() && cur[k] == y;
                assert(self.gathered(cur[k], level, all));
                let j = choose|j: int|
                    0 <= j < self.nodes@[y as int].children@.len()
                        && self.nodes@[y as int].children@[j] == x;
                assert(self.nodes@[self.nodes@[y as int].children@[j] as int].level == level - 1);
                assert(all.contains(x));
                let i = choose|i: int| 0 <= i < all.len() && all[i] == x;
                assert(next.contains(all[i]));
            }
        }
    }

    /// The point of the tree that is closest to `query`, with its distance;
    /// nothing if the tree is empty. Among several closest points the one
    /// found first is returned.
    pub fn nearest_neighbor(&self, query: &T) -> (res: Option<(&T, u64)>)
        requires
            self.wf(),
        ensures
            match res {
                None => self@ == Set::<T>::empty(),
                Some((point, d)) => {
                    &&& self@.contains(*point)
                    &&& d == point.dist(query)
                    &&& forall|other: T|
                        #![trigger self@.contains(other)]
                        #![trigger other.dist(query)]
                        self@.contains(other) ==> d <= other.dist(query)
                },
            },
    {
        let r = match self.root {
            None => {
                proof {
                    assert(self@ =~= Set::<T>::empty());
                }
                return None;
            },
            Some(r) => r,
        };
        assert(self.is_node(r));
        assert(self.node_linked(r));
        let mut best: usize = r;
        let mut best_d: u64 = self.nodes[r].point.distance(query);
        let mut cur: Vec<usize> = Vec::new();
        cur.push(r);
        let mut level: i32 = self.nodes[r].level;
        proof {
            assert forall|x: usize| #[trigger]
                self.in_reach(x, level as int, *query, best_d as nat) implies cur@.contains(x) by {
                assert(self.node_linked(x));
                assert(x == r);
                assert(cur@[0] == r);
            }
        }
        loop
            invariant_except_break
                self.candidates_sound(cur@, level as int),
                self.none_closer(cur@, *query, best_d as nat),
                self.reach_complete(cur@, level as int, *query, best_d as nat),
            invariant
                self.wf(),
                self.root == Some(r),
                MIN_LEVEL <= level <= self.nodes@[r as int].level <= MAX_LEVEL,
                self.is_node(best),
                best_d == self.nodes@[best as int].point.dist(query),
            ensures
                forall|x: usize|
                    #[trigger] self.is_node(x) ==> self.nodes@[x as int].point.dist(query)
                        >= best_d,
            decreases level + 2,
        {
            let ghost old_best = best_d as nat;
            let (all, new_best, new_best_d, remaining) = self.gather(
                &cur,
                level,
                query,
                best,
                best_d,
            );
            best = new_best;
            best_d = new_best_d;
            let next = self.prune(&all, level, query, best_d);
            proof {
                self.lemma_pruned_complete(
                    cur@,
                    all@,
                    next@,
                    level as int,
                    *query,
                    old_best,
                    best_d as nat,
                );
            }
            if next.len() == 0 {
                proof {
                    assert forall|x: usize| #[trigger] self.is_node(x) implies self.nodes@[x as int]
                        .point.dist(query) >= best_d by {
                        self.lemma_best_is_least(next@, level - 1, *query, best_d as nat, x);
                    }
                }
                break ;
            }
            if !remaining {
                proof {
                    assert forall|x: usize| #[trigger] self.is_node(x) implies self.nodes@[x as int]
                        .point.dist(query) >= best_d by {
                        assert forall|x: usize| #[trigger]
                            self.in_reach(x, level as int, *query, best_d as nat) implies cur@.contains(
                            x,
                        ) by {
                            lemma_below_scale_plus_monotonic(
                                self.nodes@[x as int].point.dist(query),
                                level + 1,
                                level + 1,
                                best_d as nat,
                                old_best,
                            );
                            assert(self.in_reach(x, level as int, *query, old_best));
                        }
                        assert(self.none_closer(cur@, *query, best_d as nat));
                        self.lemma_best_is_least(cur@, level as int, *query, best_d as nat, x);
                    }
                }
                break ;
            }
            cur = next;
            level = level - 1;
        }
        proof {
            assert(self@.contains(self.nodes@[best as int].point));
            assert forall|other: T| self@.contains(other) implies best_d <= #[trigger] other.dist(
                query,
            ) by {
                let i = choose|i: usize| #[trigger]
                    self.is_node(i) && self.nodes@[i as int].point == other;
            }
        }
        Some((&self.nodes[best].point, best_d))
    }
}

} // verus!
