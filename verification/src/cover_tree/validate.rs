//! The diagnostic walk: visit the tree level by level and check the covering
//! and the separation rule on every pair that they speak of.
use crate::cover_tree::{CoverTree, Distance, ViolationKind, ViolationReport};
use crate::scale::{is_within_scale, lemma_within_scale_monotonic, within_scale, MAX_LEVEL, MIN_LEVEL};
use vstd::prelude::*;

verus! {

impl<T: Distance> CoverTree<T> {
    /// Every node of level `level` or higher is in `set`.
    pub(super) open spec fn walk_complete(&self, set: Seq<usize>, level: int) -> bool {
        forall|x: usize| #[trigger]
            self.is_node(x) && self.nodes@[x as int].level >= level ==> set.contains(x)
    }

    /// Every node of level `level` or higher lies within the scale of its parent.
    pub(super) open spec fn covered_from(&self, level: int) -> bool {
        forall|x: usize| #[trigger]
            self.is_node(x) && self.nodes@[x as int].level >= level ==> self.node_covered(x)
    }

    /// Any two nodes of level `level` or higher are separated.
    pub(super) open spec fn separated_from(&self, level: int) -> bool {
        forall|a: usize, b: usize|
            #![trigger self.is_node(a), self.is_node(b)]
            self.is_node(a) && self.is_node(b) && a != b && self.nodes@[a as int].level >= level
                && self.nodes@[b as int].level >= level ==> self.pair_separated(a, b)
    }

    /// The children of node `y` that first appear at `level - 1` are
    /// covered, up to the child at position `upto`.
    pub(super) open spec fn children_covered(&self, y: usize, level: int, upto: int) -> bool {
        forall|j: int|
            0 <= j < upto ==> self.nodes@[(#[trigger] self.nodes@[y as int].children@[j]) as int].level
                == level - 1 ==> self.node_covered(self.nodes@[y as int].children@[j])
    }

    /// A walk that has no child left to visit has visited every node.
    proof fn lemma_walk_closed(&self, set: Seq<usize>, level: int, low: int)
        requires
            self.linked(),
            self.root matches Some(r) && level <= self.nodes@[r as int].level,
            self.walk_complete(set, level),
            forall|k: int| 0 <= k < set.len() ==> self.settled(#[trigger] set[k], level),
            low <= level,
        ensures
            self.walk_complete(set, low),
        decreases level - low,
    {
        if low < level {
            self.lemma_walk_closed(set, level, low + 1);
            assert forall|x: usize| #[trigger]
                self.is_node(x) && self.nodes@[x as int].level >= low implies set.contains(x) by {
                assert(self.node_linked(x));
                if self.nodes@[x as int].level == low {
                    let y = self.nodes@[x as int].ancestor.unwrap();
                    assert(self.is_node(y));
                    let k = choose|k: int| 0 <= k < set.len() && set[k] == y;
                    assert(self.settled(set[k], level));
                    let kids = self.nodes@[y as int].children@;
                    let j = choose|j: int| 0 <= j < kids.len() && kids[j] == x;
                    assert(self.nodes@[kids[j] as int].level >= level);
                }
            }
        }
    }

    /// The nodes of the next level: those of `cur` and their children that
    /// first appear at `level - 1`, each of which must lie within `2^level`
    /// of its parent. Also tells whether a child of `cur` still waits at
    /// `level - 1` or below.
    fn walk_down(&self, cur: &Vec<usize>, level: i32) -> (res: Result<
        (Vec<usize>, bool),
        ViolationReport<'_, T>,
    >)
        requires
            self.linked(),
            self.candidates_sound(cur@, level as int),
            MIN_LEVEL <= level <= MAX_LEVEL,
        ensures
            match res {
                Ok((next, remaining)) => {
                    &&& self.candidates_sound(next@, level - 1)
                    &&& forall|k: int|
                        0 <= k < cur@.len() ==> self.gathered(#[trigger] cur@[k], level as int, next@)
                    &&& forall|k: int|
                        0 <= k < cur@.len() ==> self.children_covered(
                            #[trigger] cur@[k],
                            level as int,
                            self.nodes@[cur@[k] as int].children@.len() as int,
                        )
                    &&& !remaining ==> forall|k: int|
                        0 <= k < cur@.len() ==> self.settled(#[trigger] cur@[k], level as int)
                    &&& remaining ==> level >= 0
                },
                Err(report) => {
                    &&& !self.covered()
                    &&& report.kind == ViolationKind::Covering
                    &&& report.violated()
                    &&& self@.contains(*report.first)
                    &&& self@.contains(*report.second)
                },
            },
    {
        let mut next: Vec<usize> = Vec::new();
        let mut remaining: bool = false;
        let mut a: usize = 0;
        while a < cur.len()
            invariant
                self.linked(),
                self.candidates_sound(cur@, level as int),
                MIN_LEVEL <= level <= MAX_LEVEL,
                0 <= a <= cur@.len(),
                self.candidates_sound(next@, level - 1),
                forall|k: int| 0 <= k < a ==> self.gathered(#[trigger] cur@[k], level as int, next@),
                forall|k: int|
                    0 <= k < a ==> self.children_covered(
                        #[trigger] cur@[k],
                        level as int,
                        self.nodes@[cur@[k] as int].children@.len() as int,
                    ),
                !remaining ==> forall|k: int|
                    0 <= k < a ==> self.settled(#[trigger] cur@[k], level as int),
                remaining ==> level >= 0,
            decreases cur@.len() - a,
        {
            let y = cur[a];
            assert(self.is_node(cur@[a as int]));
            assert(self.node_linked(y));
            let ghost before = next@;
            next.push(y);
            proof {
                self.lemma_push_walked(before, y, level as int, cur@, a as int);
            }
            let mut b: usize = 0;
            while b < self.nodes[y].children.len()
                invariant
                    self.linked(),
                    self.candidates_sound(cur@, level as int),
                    MIN_LEVEL <= level <= MAX_LEVEL,
                    0 <= a < cur@.len(),
                    y == cur@[a as int],
                    self.is_node(y),
                    self.node_linked(y),
                    0 <= b <= self.nodes@[y as int].children@.len(),
                    self.candidates_sound(next@, level - 1),
                    forall|k: int|
                        0 <= k < a ==> self.gathered(#[trigger] cur@[k], level as int, next@),
                    forall|k: int|
                        0 <= k < a ==> self.children_covered(
                            #[trigger] cur@[k],
                            level as int,
                            self.nodes@[cur@[k] as int].children@.len() as int,
                        ),
                    next@.contains(y),
                    self.children_gathered(y, level as int, next@, b as int),
                    self.children_covered(y, level as int, b as int),
                    !remaining ==> forall|k: int|
                        0 <= k < a ==> self.settled(#[trigger] cur@[k], level as int),
                    !remaining ==> forall|j: int|
                        0 <= j < b ==> self.nodes@[(
                        #[trigger] self.nodes@[y as int].children@[j]) as int].level >= level,
                    remaining ==> level >= 0,
                decreases self.nodes@[y as int].children@.len() - b,
            {
                let c = self.nodes[y].children[b];
                assert(self.is_child_of(c, y));
                assert(self.node_linked(c));
                let child_level = self.nodes[c].level;
                if child_level == level - 1 {
                    let ghost before = next@;
                    next.push(c);
                    proof {
                        self.lemma_push_walked(before, c, level as int, cur@, a as int);
                        assert(self.children_gathered(y, level as int, before, b as int));
                    }
                    let d = self.nodes[y].point.distance(&self.nodes[c].point);
                    if !is_within_scale(d, level) {
                        proof {
                            assert(!self.node_covered(c));
                            assert(self@.contains(self.nodes@[y as int].point));
                            assert(self@.contains(self.nodes@[c as int].point));
                        }
                        return Err(
                            ViolationReport {
                                kind: ViolationKind::Covering,
                                first: &self.nodes[y].point,
                                second: &self.nodes[c].point,
                                distance: d,
                                level,
                            },
                        );
                    }
                }
                if child_level <= level - 1 {
                    remaining = true;
                }
                b = b + 1;
            }
            a = a + 1;
        }
        Ok((next, remaining))
    }

    proof fn lemma_push_walked(&self, before: Seq<usize>, e: usize, level: int, cur: Seq<usize>, a: int)
        requires
            0 <= a <= cur.len(),
            self.is_node(e),
            self.nodes@[e as int].level >= level - 1,
            self.candidates_sound(before, level - 1),
            forall|k: int| 0 <= k < a ==> self.gathered(#[trigger] cur[k], level, before),
        ensures
            self.candidates_sound(before.push(e), level - 1),
            forall|k: int| 0 <= k < a ==> self.gathered(#[trigger] cur[k], level, before.push(e)),
            before.push(e).contains(e),
            forall|y: usize, b: int|
                self.children_gathered(y, level, before, b) ==> self.children_gathered(
                    y,
                    level,
                    before.push(e),
                    b,
                ),
            forall|x: usize| before.contains(x) ==> before.push(e).contains(x),
    {
        let after = before.push(e);
        assert forall|x: usize| before.contains(x) implies after.contains(x) by {
            let i = choose|i: int| 0 <= i < before.len() && before[i] == x;
            assert(after[i] == x);
        }
        assert(after[before.len() as int] == e);
        assert forall|k: int| 0 <= k < a implies self.gathered(#[trigger] cur[k], level, after) by {
            assert(self.gathered(cur[k], level, before));
        }
    }

    /// Checks that any two different nodes of `cur` lie farther apart than
    /// `2^level`.
    fn check_apart(&self, cur: &Vec<usize>, level: i32) -> (res: Result<(), ViolationReport<'_, T>>)
        requires
            self.candidates_sound(cur@, level as int),
        ensures
            match res {
                Ok(()) => forall|a: int, b: int|
                    0 <= a < b < cur@.len() && cur@[a] != cur@[b] ==> !within_scale(
                        #[trigger] self.node_dist(cur@[a], cur@[b]),
                        level as int,
                    ),
                Err(report) => {
                    &&& !self.separated()
                    &&& report.kind == ViolationKind::Separation
                    &&& report.violated()
                    &&& self@.contains(*report.first)
                    &&& self@.contains(*report.second)
                },
            },
    {
        let mut a: usize = 0;
        while a < cur.len()
            invariant
                self.candidates_sound(cur@, level as int),
                0 <= a <= cur@.len(),
                forall|i: int, j: int|
                    0 <= i < a && i < j < cur@.len() && cur@[i] != cur@[j] ==> !within_scale(
                        #[trigger] self.node_dist(cur@[i], cur@[j]),
                        level as int,
                    ),
            decreases cur@.len() - a,
        {
            let x = cur[a];
            assert(self.is_node(cur@[a as int]));
            let mut b: usize = a + 1;
            while b < cur.len()
                invariant
                    self.candidates_sound(cur@, level as int),
                    0 <= a < b <= cur@.len(),
                    x == cur@[a as int],
                    self.is_node(x),
                    forall|j: int|
                        a < j < b && cur@[a as int] != cur@[j] ==> !within_scale(
                            #[trigger] self.node_dist(cur@[a as int], cur@[j]),
                            level as int,
                        ),
                decreases cur@.len() - b,
            {
                let y = cur[b];
                assert(self.is_node(cur@[b as int]));
                if x != y {
                    let d = self.nodes[x].point.distance(&self.nodes[y].point);
                    if is_within_scale(d, level) {
                        proof {
                            let lx = self.nodes@[x as int].level as int;
                            let ly = self.nodes@[y as int].level as int;
                            let low = if lx <= ly {
                                lx
                            } else {
                                ly
                            };
                            lemma_within_scale_monotonic(d as nat, level as int, low);
                            assert(!self.pair_separated(x, y));
                            assert(self@.contains(self.nodes@[x as int].point));
                            assert(self@.contains(self.nodes@[y as int].point));
                        }
                        return Err(
                            ViolationReport {
                                kind: ViolationKind::Separation,
                                first: &self.nodes[x].point,
                                second: &self.nodes[y].point,
                                distance: d,
                                level,
                            },
                        );
                    }
                }
                b = b + 1;
            }
            a = a + 1;
        }
        Ok(())
    }

    /// Walks the tree level by level and checks the covering and the
    /// separation rule. Returns the first pair of points found to break one
    /// of them, with the distance and the level whose scale it is held
    /// against.
    pub fn assert_valid_cover_tree(&self) -> (res: Result<(), ViolationReport<'_, T>>)
        requires
            self.linked(),
        ensures
            res is Ok <==> self.covered() && self.separated(),
            self.wf() ==> res is Ok,
            res matches Err(report) ==> {
                &&& report.violated()
                &&& self@.contains(*report.first)
                &&& self@.contains(*report.second)
                &&& report.kind == ViolationKind::Covering ==> !self.covered()
                &&& report.kind == ViolationKind::Separation ==> !self.separated()
            },
    {
        let r = match self.root {
            None => {
                return Ok(());
            },
            Some(r) => r,
        };
        assert(self.is_node(r));
        assert(self.node_linked(r));
        let mut cur: Vec<usize> = Vec::new();
        cur.push(r);
        let mut level: i32 = self.nodes[r].level;
        proof {
            assert(cur@[0] == r);
            assert forall|x: usize| #[trigger]
                self.is_node(x) && self.nodes@[x as int].level >= level implies cur@.contains(x)
                && self.node_covered(x) by {
                assert(self.node_linked(x));
            }
            assert forall|a: usize, b: usize|
                #![trigger self.is_node(a), self.is_node(b)]
                self.is_node(a) && self.is_node(b) && a != b && self.nodes@[a as int].level >= level
                    + 1 && self.nodes@[b as int].level >= level + 1 implies self.pair_separated(
                a,
                b,
            ) by {
                assert(self.node_linked(a));
            }
        }
        loop
            invariant_except_break
                self.candidates_sound(cur@, level as int),
                self.walk_complete(cur@, level as int),
                self.covered_from(level as int),
                self.separated_from(level + 1),
            invariant
                self.linked(),
                self.root == Some(r),
                MIN_LEVEL <= level <= self.nodes@[r as int].level <= MAX_LEVEL,
            ensures
                self.covered(),
                self.separated(),
            decreases level + 2,
        {
            let (next, remaining) = match self.walk_down(&cur, level) {
                Err(report) => {
                    return Err(report);
                },
                Ok(pair) => pair,
            };
            match self.check_apart(&cur, level) {
                Err(report) => {
                    return Err(report);
                },
                Ok(()) => {},
            }
            proof {
                assert forall|a: usize, b: usize|
                    #![trigger self.is_node(a), self.is_node(b)]
                    self.is_node(a) && self.is_node(b) && a != b && self.nodes@[a as int].level
                        >= level && self.nodes@[b as int].level >= level implies self.pair_separated(
                    a,
                    b,
                ) by {
                    if self.nodes@[a as int].level == level || self.nodes@[b as int].level == level {
                        let i = choose|i: int| 0 <= i < cur@.len() && cur@[i] == a;
                        let j = choose|j: int| 0 <= j < cur@.len() && cur@[j] == b;
                        T::lemma_symmetry(&self.nodes@[a as int].point, &self.nodes@[b as int].point);
                        if i < j {
                            assert(!within_scale(self.node_dist(cur@[i], cur@[j]), level as int));
                        } else {
                            assert(!within_scale(self.node_dist(cur@[j], cur@[i]), level as int));
                        }
                    }
                }
                assert forall|x: usize| #[trigger]
                    self.is_node(x) && self.nodes@[x as int].level >= level - 1 implies next@.contains(
                    x,
                ) && self.node_covered(x) by {
                    assert(self.node_linked(x));
                    if self.nodes@[x as int].level >= level {
                        let k = choose|k: int| 0 <= k < cur@.len() && cur@[k] == x;
                        assert(self.gathered(cur@[k], level as int, next@));
                    } else {
                        let y = self.nodes@[x as int].ancestor.unwrap();
                        assert(self.is_node(y));
                        let k = choose|k: int| 0 <= k < cur@.len() && cur@[k] == y;
                        assert(self.gathered(cur@[k], level as int, next@));
                        let kids = self.nodes@[y as int].children@;
                        assert(self.children_covered(cur@[k], level as int, kids.len() as int));
                        let j = choose|j: int| 0 <= j < kids.len() && kids[j] == x;
                        assert(self.nodes@[kids[j] as int].level == level - 1);
                    }
                }
            }
            if !remaining {
                proof {
                    assert forall|x: usize| #[trigger] self.is_node(x) implies self.nodes@[x as int].level
                        >= level by {
                        let lx = self.nodes@[x as int].level as int;
                        if lx < level {
                            self.lemma_walk_closed(cur@, level as int, lx);
                            let k = choose|k: int| 0 <= k < cur@.len() && cur@[k] == x;
                            assert(self.is_node(cur@[k]));
                        }
                    }
                }
                break ;
            }
            cur = next;
            level = level - 1;
        }
        Ok(())
    }
}

} // verus!
