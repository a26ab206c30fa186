//! The tree laid out level by level, for display.
use crate::cover_tree::{CoverTree, Distance};
use crate::scale::{MAX_LEVEL, MIN_LEVEL};
use vstd::prelude::*;

verus! {

/// The entries of the lists of `groups`, one list after the other.
pub open spec fn flat(groups: Seq<Seq<usize>>) -> Seq<usize>
    decreases groups.len(),
{
    if groups.len() == 0 {
        Seq::empty()
    } else {
        flat(groups.drop_last()) + groups.last()
    }
}

/// The lists that `groups` holds, as values.
pub open spec fn listed(groups: Seq<Vec<usize>>) -> Seq<Seq<usize>> {
    Seq::new(groups.len(), |i: int| groups[i]@)
}

impl<T: Distance> CoverTree<T> {
    /// Those of `kids` that are of level `level`, in their order.
    pub open spec fn of_level(&self, kids: Seq<usize>, level: int) -> Seq<usize>
        decreases kids.len(),
    {
        if kids.len() == 0 {
            kids
        } else {
            let rest = self.of_level(kids.drop_last(), level);
            if self.level(kids.last()) == level {
                rest.push(kids.last())
            } else {
                rest
            }
        }
    }

    /// Node `y`, followed by its children of level `level`.
    pub open spec fn group(&self, y: usize, level: int) -> Seq<usize> {
        seq![y] + self.of_level(self.children(y), level)
    }

    /// The group of each of `nodes`, in their order.
    pub open spec fn groups_of(&self, nodes: Seq<usize>, level: int) -> Seq<Seq<usize>> {
        Seq::new(nodes.len(), |i: int| self.group(nodes[i], level))
    }

    /// The groups at the level that lies `k` below the root's: the root
    /// alone for `k == 0`; then, for each node of the level above, the node
    /// and its children that first appear at this level.
    pub open spec fn groups_at(&self, k: nat) -> Seq<Seq<usize>>
        decreases k,
    {
        if k == 0 {
            seq![seq![self.root_node().unwrap()]]
        } else {
            self.groups_of(
                flat(self.groups_at((k - 1) as nat)),
                self.level(self.root_node().unwrap()) - k,
            )
        }
    }

    /// One of `nodes` has a child below `level`.
    pub open spec fn has_child_below(&self, nodes: Seq<usize>, level: int) -> bool {
        exists|i: int, j: int|
            0 <= i < nodes.len() && 0 <= j < self.children(nodes[i]).len() && self.level(
                #[trigger] self.children(nodes[i])[j],
            ) < level
    }

    /// Every entry of `nodes` is a node.
    pub(super) open spec fn all_nodes(&self, nodes: Seq<usize>) -> bool {
        forall|i: int| 0 <= i < nodes.len() ==> self.is_node(#[trigger] nodes[i])
    }

    /// The point of node `id`; nothing if `id` is no node.
    pub fn get(&self, id: usize) -> (res: Option<&T>)
        ensures
            match res {
                Some(point) => self.is_node(id) && *point == self.point(id),
                None => !self.is_node(id),
            },
    {
        if id < self.nodes.len() && self.nodes[id].live {
            Some(&self.nodes[id].point)
        } else {
            None
        }
    }

    /// The level of node `id`; nothing if `id` is no node.
    pub fn level_of(&self, id: usize) -> (res: Option<i32>)
        ensures
            match res {
                Some(level) => self.is_node(id) && level == self.level(id),
                None => !self.is_node(id),
            },
    {
        if id < self.nodes.len() && self.nodes[id].live {
            Some(self.nodes[id].level)
        } else {
            None
        }
    }

    /// The groups for the nodes of `cur`, one level below `level`; also
    /// tells whether a node of `cur` has a child below `level`.
    fn groups_below(&self, cur: &Vec<Vec<usize>>, level: i32) -> (res: (Vec<Vec<usize>>, bool))
        requires
            self.linked(),
            self.all_nodes(flat(listed(cur@))),
            MIN_LEVEL <= level <= MAX_LEVEL,
        ensures
            listed(res.0@) == self.groups_of(flat(listed(cur@)), level - 1),
            self.all_nodes(flat(listed(res.0@))),
            res.1 == self.has_child_below(flat(listed(cur@)), level as int),
            res.1 ==> level >= 0,
    {
        let mut next: Vec<Vec<usize>> = Vec::new();
        let mut remaining: bool = false;
        let ghost mut seen: Seq<usize> = Seq::empty();
        let ghost mut witness: (int, int) = (0, 0);
        let mut a: usize = 0;
        proof {
            assert(listed(cur@).take(0) =~= Seq::<Seq<usize>>::empty());
            assert(listed(next@) =~= self.groups_of(seen, level - 1));
            assert(flat(listed(next@)) =~= Seq::<usize>::empty());
        }
        while a < cur.len()
            invariant
                self.linked(),
                self.all_nodes(flat(listed(cur@))),
                MIN_LEVEL <= level <= MAX_LEVEL,
                0 <= a <= cur@.len(),
                seen == flat(listed(cur@).take(a as int)),
                listed(next@) == self.groups_of(seen, level - 1),
                self.all_nodes(flat(listed(next@))),
                self.all_nodes(seen),
                remaining ==> {
                    &&& 0 <= witness.0 < seen.len()
                    &&& 0 <= witness.1 < self.children(seen[witness.0]).len()
                    &&& self.level(self.children(seen[witness.0])[witness.1]) < level
                    &&& level >= 0
                },
                !remaining ==> forall|i: int, j: int|
                    0 <= i < seen.len() && 0 <= j < self.children(seen[i]).len() ==> self.level(
                        #[trigger] self.children(seen[i])[j],
                    ) >= level,
            decreases cur@.len() - a,
        {
            let set = &cur[a];
            let ghost base = seen;
            let mut b: usize = 0;
            proof {
                assert(set@.take(0) =~= Seq::<usize>::empty());
                assert(base + set@.take(0) =~= base);
                lemma_flat_take(listed(cur@), a as int);
                lemma_flat_prefix(listed(cur@), a as int + 1);
                assert(listed(cur@)[a as int] == set@);
            }
            while b < set.len()
                invariant
                    self.linked(),
                    self.all_nodes(flat(listed(cur@))),
                    MIN_LEVEL <= level <= MAX_LEVEL,
                    0 <= a < cur@.len(),
                    set@ == listed(cur@)[a as int],
                    base == flat(listed(cur@).take(a as int)),
                    forall|i: int|
                        0 <= i < base.len() + set@.len() ==> (base + set@)[i] == flat(
                            listed(cur@),
                        )[i] && i < flat(listed(cur@)).len(),
                    0 <= b <= set@.len(),
                    seen == base + set@.take(b as int),
                    listed(next@) == self.groups_of(seen, level - 1),
                    self.all_nodes(flat(listed(next@))),
                    self.all_nodes(seen),
                    remaining ==> {
                        &&& 0 <= witness.0 < seen.len()
                        &&& 0 <= witness.1 < self.children(seen[witness.0]).len()
                        &&& self.level(self.children(seen[witness.0])[witness.1]) < level
                        &&& level >= 0
                    },
                    !remaining ==> forall|i: int, j: int|
                        0 <= i < seen.len() && 0 <= j < self.children(seen[i]).len() ==> self.level(
                            #[trigger] self.children(seen[i])[j],
                        ) >= level,
                decreases set@.len() - b,
            {
                let y = set[b];
                proof {
                    assert((base + set@)[base.len() + b] == y);
                    assert(self.is_node(flat(listed(cur@))[base.len() + b]));
                    assert(self.node_linked(y));
                }
                let mut group: Vec<usize> = Vec::new();
                group.push(y);
                let mut j: usize = 0;
                let ghost was_remaining = remaining;
                let ghost prior = witness;
                proof {
                    assert(self.children(y).take(0) =~= Seq::<usize>::empty());
                    assert(group@ =~= seq![y] + self.of_level(self.children(y).take(0), level - 1));
                }
                while j < self.nodes[y].children.len()
                    invariant
                        self.linked(),
                        self.is_node(y),
                        self.node_linked(y),
                        MIN_LEVEL <= level <= MAX_LEVEL,
                        0 <= j <= self.children(y).len(),
                        group@ == seq![y] + self.of_level(
                            self.children(y).take(j as int),
                            level - 1,
                        ),
                        self.all_nodes(group@),
                        was_remaining ==> remaining && witness == prior,
                        remaining && !was_remaining ==> {
                            &&& 0 <= witness.1 < self.children(y).len()
                            &&& self.level(self.children(y)[witness.1]) < level
                            &&& witness.0 == seen.len()
                            &&& level >= 0
                        },
                        !remaining ==> forall|i: int|
                            0 <= i < j ==> self.level(#[trigger] self.children(y)[i]) >= level,
                    decreases self.children(y).len() - j,
                {
                    let c = self.nodes[y].children[j];
                    assert(self.is_child_of(c, y));
                    assert(self.node_linked(c));
                    let child_level = self.nodes[c].level;
                    proof {
                        let upto = self.children(y).take(j + 1);
                        assert(upto.drop_last() =~= self.children(y).take(j as int));
                        assert(upto.last() == c);
                    }
                    if child_level == level - 1 {
                        group.push(c);
                    }
                    if child_level <= level - 1 {
                        proof {
                            if !remaining {
                                witness = (seen.len() as int, j as int);
                            }
                        }
                        remaining = true;
                    }
                    proof {
                        assert(group@ =~= seq![y] + self.of_level(
                            self.children(y).take(j + 1),
                            level - 1,
                        ));
                    }
                    j = j + 1;
                }
                proof {
                    assert(self.children(y).take(self.children(y).len() as int) =~= self.children(
                        y,
                    ));
                    assert(group@ == self.group(y, level - 1));
                }
                let ghost before = next@;
                let ghost before_seen = seen;
                next.push(group);
                proof {
                    seen = seen.push(y);
                    assert(set@.take(b + 1) =~= set@.take(b as int).push(y));
                    assert(seen =~= base + set@.take(b + 1));
                    assert(listed(next@) =~= self.groups_of(seen, level - 1)) by {
                        assert forall|i: int| 0 <= i < next@.len() implies listed(next@)[i]
                            == self.groups_of(seen, level - 1)[i] by {
                            if i < before.len() {
                                assert(listed(before)[i] == self.groups_of(before_seen, level - 1)[i]);
                            }
                        }
                    }
                    assert(listed(next@).drop_last() =~= listed(before));
                    assert(listed(next@).last() == group@);
                    assert(self.all_nodes(flat(listed(next@))));
                    if remaining && !was_remaining {
                        assert(seen[witness.0] == y);
                    }
                    if remaining && was_remaining {
                        assert(seen[witness.0] == before_seen[witness.0]);
                    }
                    if !remaining {
                        assert forall|i: int, k: int|
                            0 <= i < seen.len() && 0 <= k < self.children(seen[i]).len() implies self.level(
                            #[trigger] self.children(seen[i])[k],
                        ) >= level by {
                            if i < before_seen.len() {
                                assert(seen[i] == before_seen[i]);
                            }
                        }
                    }
                }
                b = b + 1;
            }
            proof {
                assert(set@.take(set@.len() as int) =~= set@);
                assert(listed(cur@).take(a + 1).drop_last() =~= listed(cur@).take(a as int));
                assert(listed(cur@).take(a + 1).last() == set@);
            }
            a = a + 1;
        }
        proof {
            assert(listed(cur@).take(cur@.len() as int) =~= listed(cur@));
            if remaining {
                assert(self.has_child_below(seen, level as int));
            }
        }
        (next, remaining)
    }

    /// The tree level by level, from the root's level down to the lowest:
    /// for each level the groups of that level, a group being a node of
    /// the level above followed by its children that first appear at this
    /// level. Nodes are named by their number in the arena; `get` and
    /// `level_of` tell what is stored there.
    pub fn level_sets(&self) -> (levels: Vec<Vec<Vec<usize>>>)
        requires
            self.linked(),
        ensures
            self.root_node() is None ==> levels@.len() == 0,
            self.root_node() matches Some(r) ==> {
                &&& levels@.len() >= 1
                &&& forall|k: int|
                    0 <= k < levels@.len() ==> listed((#[trigger] levels@[k])@) == self.groups_at(
                        k as nat,
                    )
                &&& forall|k: int|
                    0 <= k < levels@.len() - 1 ==> self.has_child_below(
                        flat(#[trigger] self.groups_at(k as nat)),
                        self.level(r) - k,
                    )
                &&& !self.has_child_below(
                    flat(self.groups_at((levels@.len() - 1) as nat)),
                    self.level(r) - (levels@.len() - 1),
                )
            },
    {
        let mut levels: Vec<Vec<Vec<usize>>> = Vec::new();
        let r = match self.root {
            None => {
                return levels;
            },
            Some(r) => r,
        };
        assert(self.is_node(r));
        assert(self.node_linked(r));
        let top = self.nodes[r].level;
        let mut first: Vec<usize> = Vec::new();
        first.push(r);
        let mut cur: Vec<Vec<usize>> = Vec::new();
        cur.push(first);
        let mut level: i32 = top;
        proof {
            assert(listed(cur@) =~= seq![seq![r]]);
            assert(listed(cur@).drop_last() =~= Seq::<Seq<usize>>::empty());
            assert(listed(cur@).last() == seq![r]);
            assert(flat(Seq::<Seq<usize>>::empty()) =~= Seq::<usize>::empty());
            assert(flat(listed(cur@)) =~= seq![r]);
        }
        loop
            invariant_except_break
                listed(cur@) == self.groups_at(levels@.len()),
                self.all_nodes(flat(listed(cur@))),
                level == top - levels@.len(),
                forall|k: int|
                    0 <= k < levels@.len() ==> self.has_child_below(
                        flat(#[trigger] self.groups_at(k as nat)),
                        top - k,
                    ),
            invariant
                self.linked(),
                self.root == Some(r),
                top == self.nodes@[r as int].level,
                MIN_LEVEL <= level <= top <= MAX_LEVEL,
                forall|k: int|
                    0 <= k < levels@.len() ==> listed((#[trigger] levels@[k])@) == self.groups_at(
                        k as nat,
                    ),
            ensures
                levels@.len() >= 1,
                level == top - (levels@.len() - 1),
                forall|k: int|
                    0 <= k < levels@.len() ==> listed((#[trigger] levels@[k])@) == self.groups_at(
                        k as nat,
                    ),
                forall|k: int|
                    0 <= k < levels@.len() - 1 ==> self.has_child_below(
                        flat(#[trigger] self.groups_at(k as nat)),
                        top - k,
                    ),
                !self.has_child_below(
                    flat(self.groups_at((levels@.len() - 1) as nat)),
                    top - (levels@.len() - 1),
                ),
            decreases level + 2,
        {
            let (next, remaining) = self.groups_below(&cur, level);
            let ghost shown = listed(cur@);
            let ghost depth = levels@.len();
            levels.push(cur);
            if !remaining {
                break ;
            }
            cur = next;
            level = level - 1;
            proof {
                assert(self.groups_at((depth + 1) as nat) == self.groups_of(
                    flat(self.groups_at(depth as nat)),
                    top - (depth + 1),
                ));
            }
        }
        levels
    }
}

/// The flat list of the first `k + 1` groups is that of the first `k`,
/// followed by group `k`.
pub proof fn lemma_flat_take(groups: Seq<Seq<usize>>, k: int)
    requires
        0 <= k < groups.len(),
    ensures
        flat(groups.take(k + 1)) == flat(groups.take(k)) + groups[k],
{
    assert(groups.take(k + 1).drop_last() =~= groups.take(k));
    assert(groups.take(k + 1).last() == groups[k]);
}

/// The flat list of the first `k` groups is the beginning of the flat
/// list of all.
pub proof fn lemma_flat_prefix(groups: Seq<Seq<usize>>, k: int)
    requires
        0 <= k <= groups.len(),
    ensures
        flat(groups.take(k)).len() <= flat(groups).len(),
        forall|i: int| 0 <= i < flat(groups.take(k)).len() ==> flat(groups.take(k))[i] == flat(groups)[i],
    decreases groups.len() - k,
{
    if k < groups.len() {
        lemma_flat_prefix(groups, k + 1);
        lemma_flat_take(groups, k);
    } else {
        assert(groups.take(k) =~= groups);
    }
}

} // verus!
