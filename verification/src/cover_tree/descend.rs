//! The step from one level's candidates to the next, on which insertion and
//! removal descend.
use crate::cover_tree::{CoverTree, Distance};
use crate::scale::{
    below_scale, is_below_scale, is_within_scale, lemma_below_scale_monotonic,
    lemma_below_scale_sum, lemma_within_scale_monotonic, lemma_within_scale_sum, within_scale,
    MAX_LEVEL, MIN_LEVEL,
};
use vstd::prelude::*;

verus! {

/// `d < 2^level` where `strict` holds, `d <= 2^level` where it does not.
pub open spec fn near_scale(d: nat, level: int, strict: bool) -> bool {
    if strict {
        below_scale(d, level)
    } else {
        within_scale(d, level)
    }
}

/// A larger scale admits whatever a smaller one does.
pub proof fn lemma_near_scale_monotonic(d: nat, lo: int, hi: int, strict: bool)
    requires
        lo <= hi,
        near_scale(d, lo, strict),
    ensures
        near_scale(d, hi, strict),
{
    if strict {
        lemma_below_scale_monotonic(d, lo, hi);
    } else {
        lemma_within_scale_monotonic(d, lo, hi);
    }
}

/// Decides `near_scale`.
pub fn is_near_scale(d: u64, level: i32, strict: bool) -> (b: bool)
    ensures
        b == near_scale(d as nat, level as int, strict),
{
    if strict {
        is_below_scale(d, level)
    } else {
        is_within_scale(d, level)
    }
}

impl<T: Distance> CoverTree<T> {
    /// Every entry of `set` is a node of level `level` or higher.
    pub(super) open spec fn candidates_sound(&self, set: Seq<usize>, level: int) -> bool {
        forall|k: int|
            0 <= k < set.len() ==> self.is_node(#[trigger] set[k]) && self.nodes@[set[k] as int].level
                >= level
    }

    /// Every entry of `set` is near `q` on the scale of `level`.
    pub(super) open spec fn candidates_near(
        &self,
        set: Seq<usize>,
        level: int,
        q: T,
        strict: bool,
    ) -> bool {
        forall|k: int|
            0 <= k < set.len() ==> near_scale(
                self.nodes@[#[trigger] set[k] as int].point.dist(&q),
                level,
                strict,
            )
    }

    /// No entry of `set` is at distance zero from `q`.
    pub(super) open spec fn candidates_apart(&self, set: Seq<usize>, q: T) -> bool {
        forall|k: int|
            0 <= k < set.len() ==> self.nodes@[#[trigger] set[k] as int].point.dist(&q) > 0
    }

    /// Whether node `x` must be a candidate at `level`.
    pub(super) open spec fn is_candidate(&self, x: usize, level: int, q: T, strict: bool) -> bool {
        &&& self.is_node(x)
        &&& self.nodes@[x as int].level >= level
        &&& near_scale(self.nodes@[x as int].point.dist(&q), level + 1, strict)
    }

    /// Every node of level `level` or higher that is near `q` on the scale
    /// of `level + 1` is an entry of `set`.
    pub(super) open spec fn candidates_complete(
        &self,
        set: Seq<usize>,
        level: int,
        q: T,
        strict: bool,
    ) -> bool {
        forall|x: usize| #[trigger] self.is_candidate(x, level, q, strict) ==> set.contains(x)
    }

    /// The parent of a candidate at `level - 1` that first appears there is
    /// a candidate at `level`.
    pub(super) proof fn lemma_parent_is_candidate(&self, x: usize, level: int, q: T, strict: bool)
        requires
            self.linked(),
            self.covered(),
            self.is_candidate(x, level - 1, q, strict),
            self.nodes@[x as int].level == level - 1,
            self.nodes@[x as int].ancestor is Some,
        ensures
            self.is_candidate(self.nodes@[x as int].ancestor.unwrap(), level, q, strict),
            self.nodes@[self.nodes@[x as int].ancestor.unwrap() as int].children@.contains(x),
    {
        let y = self.nodes@[x as int].ancestor.unwrap();
        let px = self.nodes@[x as int].point;
        let py = self.nodes@[y as int].point;
        assert(self.node_linked(x));
        assert(self.node_covered(x));
        T::lemma_triangle(&py, &px, &q);
        let dyx = py.dist(&px);
        let dxq = px.dist(&q);
        if strict {
            lemma_below_scale_sum(dxq, dyx, level);
        } else {
            lemma_within_scale_sum(dxq, dyx, level);
        }
        lemma_near_upper(py.dist(&q), dxq + dyx, level + 1, strict);
    }

    /// One step of a descent: from the candidates at `level` to those at
    /// `level - 1`, which are the candidates and their children of level
    /// `level - 1` that are near `q` on the scale of `level`.
    ///
    /// Also returns an entry of the new set at distance zero from `q`, if
    /// there is one.
    pub(super) fn expand(&self, cur: &Vec<usize>, level: i32, q: &T, strict: bool) -> (res: (
        Vec<usize>,
        Option<usize>,
    ))
        requires
            self.linked(),
            self.covered(),
            self.candidates_sound(cur@, level as int),
            MIN_LEVEL <= level <= MAX_LEVEL,
            self.root matches Some(r) && level <= self.nodes@[r as int].level,
        ensures
            self.candidates_sound(res.0@, level - 1),
            self.candidates_near(res.0@, level as int, *q, strict),
            self.candidates_complete(cur@, level as int, *q, strict)
                ==> self.candidates_complete(res.0@, level - 1, *q, strict),
            match res.1 {
                Some(z) => res.0@.contains(z) && self.nodes@[z as int].point.dist(q) == 0,
                None => self.candidates_apart(res.0@, *q),
            },
    {
        let mut next: Vec<usize> = Vec::new();
        let mut zero: Option<usize> = None;
        let mut a: usize = 0;
        while a < cur.len()
            invariant
                self.linked(),
                self.covered(),
                self.candidates_sound(cur@, level as int),
                MIN_LEVEL <= level <= MAX_LEVEL,
                0 <= a <= cur.len(),
                self.candidates_sound(next@, level - 1),
                self.candidates_near(next@, level as int, *q, strict),
                match zero {
                    Some(z) => next@.contains(z) && self.nodes@[z as int].point.dist(q) == 0,
                    None => self.candidates_apart(next@, *q),
                },
                forall|k: int|
                    0 <= k < a ==> self.expanded(#[trigger] cur@[k], level as int, *q, strict, next@),
            decreases cur.len() - a,
        {
            let y = cur[a];
            assert(self.is_node(y));
            assert(self.node_linked(y));
            let dy = self.nodes[y].point.distance(q);
            if is_near_scale(dy, level, strict) {
                let ghost before = next@;
                next.push(y);
                proof {
                    self.lemma_push_keeps(before, y, level as int, *q, strict, a as int, cur@);
                }
                if dy == 0 && zero.is_none() {
                    zero = Some(y);
                }
                assert(next@[next@.len() - 1] == y);
            }
            let mut b: usize = 0;
            while b < self.nodes[y].children.len()
                invariant
                    self.linked(),
                    self.covered(),
                    self.candidates_sound(cur@, level as int),
                    MIN_LEVEL <= level <= MAX_LEVEL,
                    0 <= a < cur.len(),
                    y == cur@[a as int],
                    self.is_node(y),
                    self.node_linked(y),
                    0 <= b <= self.nodes@[y as int].children@.len(),
                    self.candidates_sound(next@, level - 1),
                    self.candidates_near(next@, level as int, *q, strict),
                    match zero {
                        Some(z) => next@.contains(z) && self.nodes@[z as int].point.dist(q) == 0,
                        None => self.candidates_apart(next@, *q),
                    },
                    forall|k: int|
                        0 <= k < a ==> self.expanded(
                            #[trigger] cur@[k],
                            level as int,
                            *q,
                            strict,
                            next@,
                        ),
                    near_scale(self.nodes@[y as int].point.dist(q), level as int, strict)
                        ==> next@.contains(y),
                    forall|j: int|
                        0 <= j < b ==> self.child_expanded(
                            #[trigger] self.nodes@[y as int].children@[j],
                            level as int,
                            *q,
                            strict,
                            next@,
                        ),
                decreases self.nodes@[y as int].children@.len() - b,
            {
                let c = self.nodes[y].children[b];
                assert(self.is_child_of(c, y));
                if self.nodes[c].level == level - 1 {
                    let dc = self.nodes[c].point.distance(q);
                    if is_near_scale(dc, level, strict) {
                        let ghost before = next@;
                        next.push(c);
                        proof {
                            self.lemma_push_keeps(before, c, level as int, *q, strict, a as int, cur@);
                            self.lemma_push_keeps_children(
                                before,
                                c,
                                level as int,
                                *q,
                                strict,
                                y,
                                b as int,
                            );
                        }
                        if dc == 0 && zero.is_none() {
                            zero = Some(c);
                        }
                        assert(next@[next@.len() - 1] == c);
                    }
                }
                b = b + 1;
            }
            proof {
                assert(self.expanded(y, level as int, *q, strict, next@));
            }
            a = a + 1;
        }
        proof {
            if self.candidates_complete(cur@, level as int, *q, strict) {
                assert forall|x: usize| #[trigger]
                    self.is_candidate(x, level - 1, *q, strict) implies next@.contains(x) by {
                    self.lemma_expanded_covers(x, cur@, level as int, *q, strict, next@);
                }
            }
        }
        (next, zero)
    }

    /// What the expansion of the child `c` of a candidate has put into `next`.
    pub(super) open spec fn child_expanded(
        &self,
        c: usize,
        level: int,
        q: T,
        strict: bool,
        next: Seq<usize>,
    ) -> bool {
        self.nodes@[c as int].level == level - 1 && near_scale(
            self.nodes@[c as int].point.dist(&q),
            level,
            strict,
        ) ==> next.contains(c)
    }

    /// What the expansion of the candidate `y` has put into `next`.
    pub(super) open spec fn expanded(
        &self,
        y: usize,
        level: int,
        q: T,
        strict: bool,
        next: Seq<usize>,
    ) -> bool {
        &&& near_scale(self.nodes@[y as int].point.dist(&q), level, strict) ==> next.contains(y)
        &&& forall|j: int|
            0 <= j < self.nodes@[y as int].children@.len() ==> self.child_expanded(
                #[trigger] self.nodes@[y as int].children@[j],
                level,
                q,
                strict,
                next,
            )
    }

    proof fn lemma_push_keeps(
        &self,
        before: Seq<usize>,
        e: usize,
        level: int,
        q: T,
        strict: bool,
        a: int,
        cur: Seq<usize>,
    )
        requires
            0 <= a <= cur.len(),
            self.is_node(e),
            self.nodes@[e as int].level >= level - 1,
            near_scale(self.nodes@[e as int].point.dist(&q), level, strict),
            self.candidates_sound(before, level - 1),
            self.candidates_near(before, level, q, strict),
            forall|k: int| 0 <= k < a ==> self.expanded(#[trigger] cur[k], level, q, strict, before),
        ensures
            self.candidates_sound(before.push(e), level - 1),
            self.candidates_near(before.push(e), level, q, strict),
            forall|k: int|
                0 <= k < a ==> self.expanded(#[trigger] cur[k], level, q, strict, before.push(e)),
            forall|x: usize| before.contains(x) ==> before.push(e).contains(x),
            before.push(e).contains(e),
            self.candidates_apart(before, q) && self.nodes@[e as int].point.dist(&q) > 0
                ==> self.candidates_apart(before.push(e), q),
    {
        let after = before.push(e);
        assert forall|x: usize| before.contains(x) implies after.contains(x) by {
            let i = choose|i: int| 0 <= i < before.len() && before[i] == x;
            assert(after[i] == x);
        }
        assert(after[before.len() as int] == e);
        assert forall|k: int| 0 <= k < a implies self.expanded(
            #[trigger] cur[k],
            level,
            q,
            strict,
            after,
        ) by {
            let y = cur[k];
            assert(self.expanded(y, level, q, strict, before));
            assert forall|j: int| 0 <= j < self.nodes@[y as int].children@.len() implies self.child_expanded(
                #[trigger] self.nodes@[y as int].children@[j],
                level,
                q,
                strict,
                after,
            ) by {
                assert(self.child_expanded(
                    self.nodes@[y as int].children@[j],
                    level,
                    q,
                    strict,
                    before,
                ));
            }
        }
    }

    proof fn lemma_push_keeps_children(
        &self,
        before: Seq<usize>,
        e: usize,
        level: int,
        q: T,
        strict: bool,
        y: usize,
        b: int,
    )
        requires
            0 <= b <= self.nodes@[y as int].children@.len(),
            forall|j: int|
                0 <= j < b ==> self.child_expanded(
                    #[trigger] self.nodes@[y as int].children@[j],
                    level,
                    q,
                    strict,
                    before,
                ),
        ensures
            forall|j: int|
                0 <= j < b ==> self.child_expanded(
                    #[trigger] self.nodes@[y as int].children@[j],
                    level,
                    q,
                    strict,
                    before.push(e),
                ),
    {
        let after = before.push(e);
        assert forall|x: usize| before.contains(x) implies after.contains(x) by {
            let i = choose|i: int| 0 <= i < before.len() && before[i] == x;
            assert(after[i] == x);
        }
        assert forall|j: int| 0 <= j < b implies self.child_expanded(
            #[trigger] self.nodes@[y as int].children@[j],
            level,
            q,
            strict,
            after,
        ) by {
            assert(self.child_expanded(self.nodes@[y as int].children@[j], level, q, strict, before));
        }
    }

    proof fn lemma_expanded_covers(
        &self,
        x: usize,
        cur: Seq<usize>,
        level: int,
        q: T,
        strict: bool,
        next: Seq<usize>,
    )
        requires
            self.linked(),
            self.covered(),
            self.root matches Some(r) && level <= self.nodes@[r as int].level,
            self.candidates_complete(cur, level, q, strict),
            forall|k: int|
                0 <= k < cur.len() ==> self.expanded(#[trigger] cur[k], level, q, strict, next),
            self.is_candidate(x, level - 1, q, strict),
        ensures
            next.contains(x),
    {
        let px = self.nodes@[x as int].point;
        assert(self.node_linked(x));
        if self.nodes@[x as int].level >= level {
            lemma_near_scale_monotonic(px.dist(&q), level, level + 1, strict);
            assert(self.is_candidate(x, level, q, strict));
            let k = choose|k: int| 0 <= k < cur.len() && cur[k] == x;
            assert(self.expanded(cur[k], level, q, strict, next));
        } else {
            assert(self.nodes@[x as int].ancestor is Some);
            self.lemma_parent_is_candidate(x, level, q, strict);
            let y = self.nodes@[x as int].ancestor.unwrap();
            let k = choose|k: int| 0 <= k < cur.len() && cur[k] == y;
            assert(self.expanded(cur[k], level, q, strict, next));
            let j = choose|j: int|
                0 <= j < self.nodes@[y as int].children@.len() && self.nodes@[y as int].children@[j] == x;
            assert(self.child_expanded(self.nodes@[y as int].children@[j], level, q, strict, next));
        }
    }
}

/// A distance that is at most a near sum is near.
proof fn lemma_near_upper(d: nat, bound: nat, level: int, strict: bool)
    requires
        d <= bound,
        near_scale(bound, level, strict),
    ensures
        near_scale(d, level, strict),
{
}

} // verus!
