//! What holds of every network: it maps the numbers of its width one to one,
//! so that a walk from a number of the domain comes back into the domain,
//! and no two walks end at the same number.
use crate::random_perm::{after_rounds, mask_of, mixed, Feistel};
use vstd::prelude::*;
use vstd::set_lib::{lemma_int_range, lemma_len_subset, set_int_range};

verus! {

/// A mask of `half` ones, for half the width of a network.
pub open spec fn half_mask_of(half: u32) -> u32 {
    ((1u32 << half) - 1) as u32
}

/// `v` has no bit outside `mask`.
pub open spec fn fits(v: u32, mask: u32) -> bool {
    v & mask == v
}

/// A round can be undone: the left half is what the new right half and the
/// mix give back.
proof fn lemma_round_back(l: u32, f: u32, m: u32)
    requires
        fits(l, m),
    ensures
        (((l ^ f) & m) ^ f) & m == l,
        fits((l ^ f) & m, m),
{
    assert((((l ^ f) & m) ^ f) & m == l) by (bit_vector)
        requires
            l & m == l,
    ;
    assert(((l ^ f) & m) & m == (l ^ f) & m) by (bit_vector);
}

/// The halves stay within the half mask through all rounds.
proof fn lemma_rounds_fit(l: u32, r: u32, keys: Seq<u32>, m: u32)
    requires
        fits(l, m),
        fits(r, m),
    ensures
        fits(after_rounds(l, r, keys, m).0, m),
        fits(after_rounds(l, r, keys, m).1, m),
    decreases keys.len(),
{
    if keys.len() > 0 {
        lemma_rounds_fit(l, r, keys.drop_last(), m);
        let (prev_l, prev_r) = after_rounds(l, r, keys.drop_last(), m);
        lemma_round_back(prev_l, mixed(prev_r, keys.last()), m);
    }
}

/// Different halves stay different through all rounds.
proof fn lemma_rounds_injective(l1: u32, r1: u32, l2: u32, r2: u32, keys: Seq<u32>, m: u32)
    requires
        fits(l1, m),
        fits(r1, m),
        fits(l2, m),
        fits(r2, m),
        after_rounds(l1, r1, keys, m) == after_rounds(l2, r2, keys, m),
    ensures
        l1 == l2,
        r1 == r2,
    decreases keys.len(),
{
    if keys.len() > 0 {
        let (a1, b1) = after_rounds(l1, r1, keys.drop_last(), m);
        let (a2, b2) = after_rounds(l2, r2, keys.drop_last(), m);
        lemma_rounds_fit(l1, r1, keys.drop_last(), m);
        lemma_rounds_fit(l2, r2, keys.drop_last(), m);
        let f = mixed(b1, keys.last());
        lemma_round_back(a1, f, m);
        lemma_round_back(a2, f, m);
        lemma_rounds_injective(l1, r1, l2, r2, keys.drop_last(), m);
    }
}

/// A number of the width is made of its two halves.
proof fn lemma_join_split(x: u32, half: u32)
    requires
        1 <= half <= 16,
        fits(x, mask_of((2 * half) as u32)),
    ensures
        (((x >> half) & half_mask_of(half)) << half) | (x & half_mask_of(half)) == x,
        fits(x & half_mask_of(half), half_mask_of(half)),
        fits((x >> half) & half_mask_of(half), half_mask_of(half)),
{
    let m = half_mask_of(half);
    let mask = mask_of((2 * half) as u32);
    if half == 16 {
        assert((((x >> 16u32) & m) << 16u32) | (x & m) == x) by (bit_vector)
            requires
                m == ((1u32 << 16u32) - 1) as u32,
        ;
    } else {
        let width = (2 * half) as u32;
        assert((((x >> half) & m) << half) | (x & m) == x) by (bit_vector)
            requires
                1 <= half < 16,
                width == 2 * half,
                m == ((1u32 << half) - 1) as u32,
                mask == ((1u32 << width) - 1) as u32,
                x & mask == x,
        ;
    }
    assert((x & m) & m == x & m) by (bit_vector);
    assert(((x >> half) & m) & m == (x >> half) & m) by (bit_vector);
}

/// The two halves of a number can be read off the number.
proof fn lemma_split_join(l: u32, r: u32, half: u32)
    requires
        1 <= half <= 16,
        fits(l, half_mask_of(half)),
        fits(r, half_mask_of(half)),
    ensures
        ((r << half) | l) & half_mask_of(half) == l,
        (((r << half) | l) >> half) & half_mask_of(half) == r,
        fits((r << half) | l, mask_of((2 * half) as u32)),
{
    let m = half_mask_of(half);
    let mask = mask_of((2 * half) as u32);
    assert(((r << half) | l) & m == l && (((r << half) | l) >> half) & m == r) by (bit_vector)
        requires
            1 <= half <= 16,
            m == ((1u32 << half) - 1) as u32,
            l & m == l,
            r & m == r,
    ;
    if half == 16 {
        assert(((r << half) | l) & 0xffff_ffffu32 == (r << half) | l) by (bit_vector);
    } else {
        let width = (2 * half) as u32;
        assert(((r << half) | l) & mask == (r << half) | l) by (bit_vector)
            requires
                1 <= half < 16,
                width == 2 * half,
                m == ((1u32 << half) - 1) as u32,
                mask == ((1u32 << width) - 1) as u32,
                l & m == l,
                r & m == r,
        ;
    }
}

/// Among more numbers than there are numbers below `bound`, all of them
/// below `bound`, two are the same.
pub proof fn lemma_pigeonhole(values: Seq<int>, bound: int)
    requires
        0 <= bound < values.len(),
        forall|i: int| 0 <= i < values.len() ==> 0 <= #[trigger] values[i] < bound,
    ensures
        exists|a: int, b: int| 0 <= a < b < values.len() && values[a] == values[b],
{
    if values.no_duplicates() {
        values.unique_seq_to_set();
        lemma_int_range(0, bound);
        assert(values.to_set().subset_of(set_int_range(0, bound))) by {
            assert forall|v: int| values.to_set().contains(v) implies set_int_range(
                0,
                bound,
            ).contains(v) by {
                let i = choose|i: int| 0 <= i < values.len() && values[i] == v;
                assert(0 <= values[i] < bound);
            }
        }
        lemma_len_subset(values.to_set(), set_int_range(0, bound));
    } else {
        let (i, j) = choose|i: int, j: int|
            0 <= i < values.len() && 0 <= j < values.len() && i != j && values[i] == values[j];
        if i < j {
            assert(0 <= i < j < values.len() && values[i] == values[j]);
        } else {
            assert(0 <= j < i < values.len() && values[j] == values[i]);
        }
    }
}

impl Feistel {
    /// `x` is one of the numbers of the network's width.
    pub closed spec fn within(&self, x: u32) -> bool {
        fits(x, self.mask)
    }

    /// The numbers of the width are those up to the mask, of which there
    /// are as many as a walk has patience for; the domain lies among them.
    pub proof fn lemma_within(&self, x: u32)
        requires
            self.wf(),
        ensures
            self.within(x) <==> x < self.patience(),
            x < self.domain() ==> self.within(x),
    {
        let mask = self.mask;
        let bits = self.bits;
        if bits >= 32 {
            assert(x & 0xffff_ffffu32 == x) by (bit_vector);
        } else {
            assert((x & mask == x) <==> x <= mask) by (bit_vector)
                requires
                    2 <= bits < 32,
                    mask == ((1u32 << bits) - 1) as u32,
            ;
        }
    }

    /// The network maps the numbers of its width to numbers of its width.
    pub proof fn lemma_step_within(&self, x: u32)
        requires
            self.wf(),
        ensures
            self.within(self.step(x)),
            self.step(x) == self.spec_feistel(x),
    {
        let half = (self.bits / 2) as u32;
        let hm = half_mask_of(half);
        let l0 = x & hm;
        let r0 = (x >> half) & hm;
        assert(fits(l0, hm) && fits(r0, hm)) by {
            assert((x & hm) & hm == x & hm) by (bit_vector);
            assert(((x >> half) & hm) & hm == (x >> half) & hm) by (bit_vector);
        }
        lemma_rounds_fit(l0, r0, self.keys@, hm);
        let (l, r) = after_rounds(l0, r0, self.keys@, hm);
        lemma_split_join(l, r, half);
        assert(2 * half == self.bits);
        let y = (r << half) | l;
        let mask = self.mask;
        assert((y & mask) & mask == y & mask) by (bit_vector);
    }

    /// The network maps no two numbers of its width to the same number.
    pub proof fn lemma_step_injective(&self, x1: u32, x2: u32)
        requires
            self.wf(),
            self.within(x1),
            self.within(x2),
            self.step(x1) == self.step(x2),
        ensures
            x1 == x2,
    {
        let half = (self.bits / 2) as u32;
        let hm = half_mask_of(half);
        assert(2 * half == self.bits);
        self.lemma_step_within(x1);
        self.lemma_step_within(x2);
        lemma_join_split(x1, half);
        lemma_join_split(x2, half);
        let a1 = x1 & hm;
        let b1 = (x1 >> half) & hm;
        let a2 = x2 & hm;
        let b2 = (x2 >> half) & hm;
        lemma_rounds_fit(a1, b1, self.keys@, hm);
        lemma_rounds_fit(a2, b2, self.keys@, hm);
        let (l1, r1) = after_rounds(a1, b1, self.keys@, hm);
        let (l2, r2) = after_rounds(a2, b2, self.keys@, hm);
        lemma_split_join(l1, r1, half);
        lemma_split_join(l2, r2, half);
        lemma_rounds_injective(a1, b1, a2, b2, self.keys@, hm);
    }

    /// A walk from a number of the width stays among these numbers.
    pub proof fn lemma_walk_within(&self, x: u32, k: nat)
        requires
            self.wf(),
            self.within(x),
        ensures
            self.within(self.walk(x, k)),
        decreases k,
    {
        if k > 0 {
            self.lemma_step_within(self.walk(x, (k - 1) as nat));
        }
    }

    /// Where a walk is at the same number after `a` and after `b` steps,
    /// it is back at its start after `b - a` steps.
    pub proof fn lemma_walk_back(&self, x: u32, a: nat, b: nat)
        requires
            self.wf(),
            self.within(x),
            a <= b,
            self.walk(x, a) == self.walk(x, b),
        ensures
            self.walk(x, (b - a) as nat) == x,
        decreases a,
    {
        if a > 0 {
            self.lemma_walk_within(x, (a - 1) as nat);
            self.lemma_walk_within(x, (b - 1) as nat);
            self.lemma_step_injective(self.walk(x, (a - 1) as nat), self.walk(x, (b - 1) as nat));
            self.lemma_walk_back(x, (a - 1) as nat, (b - 1) as nat);
        }
    }

    /// A walk from a number of the width comes back to that number, after
    /// no more steps than the network has numbers.
    pub proof fn lemma_walk_returns(&self, x: u32)
        requires
            self.wf(),
            self.within(x),
        ensures
            exists|k: nat| 1 <= k <= self.patience() && #[trigger] self.walk(x, k) == x,
    {
        let count = self.patience();
        let values = Seq::new(count + 1, |j: int| self.walk(x, j as nat) as int);
        assert forall|j: int| 0 <= j < values.len() implies 0 <= #[trigger] values[j] < count by {
            self.lemma_walk_within(x, j as nat);
            self.lemma_within(self.walk(x, j as nat));
        }
        lemma_pigeonhole(values, count as int);
        let (a, b) = choose|a: int, b: int| 0 <= a < b < values.len() && values[a] == values[b];
        self.lemma_walk_back(x, a as nat, b as nat);
        let k = (b - a) as nat;
        assert(1 <= k <= self.patience() && self.walk(x, k) == x);
    }

    /// Two walks that first come back into the domain at the same number
    /// started at the same number: `permute` maps no two numbers of the
    /// domain to one.
    pub proof fn lemma_permute_injective(&self, x1: u32, k1: nat, x2: u32, k2: nat)
        requires
            self.wf(),
            x1 < self.domain(),
            x2 < self.domain(),
            k1 >= 1,
            k2 >= 1,
            self.walk(x1, k1) == self.walk(x2, k2),
            forall|j: nat| 1 <= j < k1 ==> #[trigger] self.walk(x1, j) >= self.domain(),
            forall|j: nat| 1 <= j < k2 ==> #[trigger] self.walk(x2, j) >= self.domain(),
        ensures
            x1 == x2,
        decreases k1,
    {
        self.lemma_within(x1);
        self.lemma_within(x2);
        self.lemma_walk_within(x1, (k1 - 1) as nat);
        self.lemma_walk_within(x2, (k2 - 1) as nat);
        self.lemma_step_injective(self.walk(x1, (k1 - 1) as nat), self.walk(x2, (k2 - 1) as nat));
        if k1 == 1 && k2 == 1 {
        } else if k1 == 1 {
            assert(self.walk(x2, (k2 - 1) as nat) >= self.domain());
        } else if k2 == 1 {
            assert(self.walk(x1, (k1 - 1) as nat) >= self.domain());
        } else {
            self.lemma_permute_injective(x1, (k1 - 1) as nat, x2, (k2 - 1) as nat);
        }
    }
}

} // verus!
