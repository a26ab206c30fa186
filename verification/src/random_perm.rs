//! Permutations by number, and a keyed mixing of the numbers of a domain.
use rand::rngs::StdRng;
use rand::{RngCore, SeedableRng};
use vstd::arithmetic::div_mod::{lemma_mod_bound, lemma_multiply_divide_lt};
use vstd::prelude::*;
use vstd::slice::slice_to_vec;
use vstd::std_specs::bits::{axiom_u32_leading_zeros, u32_leading_zeros};

pub mod laws;

verus! {

/// The product `1 * 2 * ... * n`.
pub open spec fn spec_factorial(n: nat) -> nat
    decreases n,
{
    if n == 0 {
        1
    } else {
        n * spec_factorial((n - 1) as nat)
    }
}

/// A factorial is at least one.
pub proof fn lemma_factorial_positive(n: nat)
    ensures
        spec_factorial(n) >= 1,
    decreases n,
{
    if n > 0 {
        lemma_factorial_positive((n - 1) as nat);
        assert(n * spec_factorial((n - 1) as nat) >= 1) by (nonlinear_arith)
            requires
                n >= 1,
                spec_factorial((n - 1) as nat) >= 1,
        ;
    }
}

/// Factorials grow with their arguments.
pub proof fn lemma_factorial_monotonic(i: nat, j: nat)
    requires
        i <= j,
    ensures
        spec_factorial(i) <= spec_factorial(j),
    decreases j,
{
    if i < j {
        lemma_factorial_monotonic(i, (j - 1) as nat);
        lemma_factorial_positive((j - 1) as nat);
        assert(j * spec_factorial((j - 1) as nat) >= spec_factorial((j - 1) as nat))
            by (nonlinear_arith)
            requires
                j >= 1,
        ;
    }
}

/// The product `1 * 2 * ... * n`, where it fits the machine's numbers.
pub fn factorial(n: usize) -> (f: usize)
    requires
        spec_factorial(n as nat) <= usize::MAX,
    ensures
        f == spec_factorial(n as nat),
{
    let mut f: usize = 1;
    let mut i: usize = 0;
    while i < n
        invariant
            i <= n,
            f == spec_factorial(i as nat),
            spec_factorial(n as nat) <= usize::MAX,
        decreases n - i,
    {
        i = i + 1;
        proof {
            lemma_factorial_monotonic(i as nat, n as nat);
            assert(spec_factorial(i as nat) == i * spec_factorial((i - 1) as nat));
            assert(f * i == i * f) by (nonlinear_arith);
        }
        f = f * i;
    }
    f
}

/// The permutation of `elems` with the number `rank` in the order in which
/// the first element is chosen by the leading digit of `rank`, written
/// with factorials as place values.
pub open spec fn spec_unrank<T>(rank: nat, elems: Seq<T>) -> Seq<T>
    decreases elems.len(),
{
    if elems.len() == 0 {
        Seq::empty()
    } else {
        let f = spec_factorial((elems.len() - 1) as nat);
        let idx = (rank / f) as int;
        if 0 <= idx < elems.len() {
            seq![elems[idx]] + spec_unrank(rank % f, elems.remove(idx))
        } else {
            Seq::empty()
        }
    }
}

/// A rank below `n!` has a leading digit below `n` and leaves a rank below
/// `(n - 1)!`.
pub proof fn lemma_rank_digits(rank: nat, n: nat)
    requires
        n > 0,
        rank < spec_factorial(n),
    ensures
        0 <= rank / spec_factorial((n - 1) as nat) < n,
        0 <= rank % spec_factorial((n - 1) as nat) < spec_factorial((n - 1) as nat),
        spec_factorial((n - 1) as nat) > 0,
{
    let f = spec_factorial((n - 1) as nat);
    lemma_factorial_positive((n - 1) as nat);
    assert(spec_factorial(n) == n * f);
    assert(n * f == f * n) by (nonlinear_arith);
    lemma_multiply_divide_lt(rank as int, f as int, n as int);
    lemma_mod_bound(rank as int, f as int);
    vstd::arithmetic::div_mod::lemma_div_pos_is_pos(rank as int, f as int);
}

/// A permutation by rank holds each element as often as the list it was
/// made from.
pub proof fn lemma_unrank_permutes<T>(rank: nat, elems: Seq<T>)
    requires
        rank < spec_factorial(elems.len()),
    ensures
        spec_unrank(rank, elems).to_multiset() == elems.to_multiset(),
        spec_unrank(rank, elems).len() == elems.len(),
    decreases elems.len(),
{
    broadcast use vstd::seq_lib::group_to_multiset_ensures;

    if elems.len() > 0 {
        let f = spec_factorial((elems.len() - 1) as nat);
        let idx = (rank / f) as int;
        lemma_rank_digits(rank, elems.len());
        let rest = elems.remove(idx);
        lemma_unrank_permutes(rank % f, rest);
        let tail = spec_unrank(rank % f, rest);
        let head = seq![elems[idx]];
        vstd::seq_lib::to_multiset_remove(elems, idx);
        vstd::seq_lib::lemma_multiset_commutative(head, tail);
        assert(head.to_multiset() =~= vstd::multiset::Multiset::singleton(elems[idx])) by {
            assert(head =~= Seq::<T>::empty().push(elems[idx]));
            vstd::seq_lib::to_multiset_build(Seq::<T>::empty(), elems[idx]);
        }
        assert(elems.to_multiset().count(elems[idx]) > 0) by {
            vstd::seq_lib::to_multiset_contains(elems, elems[idx]);
            assert(elems.contains(elems[idx]));
        }
        assert((head + tail).to_multiset() =~= elems.to_multiset());
    } else {
        assert(spec_unrank(rank, elems) =~= elems);
    }
}

/// The permutation of `elements` with the number `rank`.
pub fn unrank_permutation<T: Copy>(rank: usize, elements: &[T]) -> (result: Vec<T>)
    requires
        spec_factorial(elements@.len()) <= usize::MAX,
        rank < spec_factorial(elements@.len()),
    ensures
        result@ == spec_unrank(rank as nat, elements@),
        result@.to_multiset() == elements@.to_multiset(),
{
    let ghost whole = spec_unrank(rank as nat, elements@);
    let mut rank: usize = rank;
    let mut elems: Vec<T> = slice_to_vec(elements);
    let mut result: Vec<T> = Vec::new();
    let n: usize = elems.len();
    let mut i: usize = n;
    proof {
        lemma_unrank_permutes(rank as nat, elements@);
        assert(result@ + spec_unrank(rank as nat, elems@) =~= whole);
    }
    while i >= 1
        invariant
            i == elems@.len(),
            i <= n,
            spec_factorial(n as nat) <= usize::MAX,
            rank < spec_factorial(i as nat),
            result@ + spec_unrank(rank as nat, elems@) == whole,
        decreases i,
    {
        proof {
            lemma_factorial_monotonic((i - 1) as nat, n as nat);
            lemma_factorial_positive((i - 1) as nat);
            lemma_rank_digits(rank as nat, i as nat);
        }
        let f = factorial(i - 1);
        let idx = rank / f;
        let ghost before = result@;
        let ghost tail = spec_unrank((rank % f) as nat, elems@.remove(idx as int));
        let ghost head = elems@[idx as int];
        let picked = elems.remove(idx);
        result.push(picked);
        rank = rank % f;
        proof {
            assert(before + (seq![head] + tail) =~= before.push(head) + tail);
        }
        i = i - 1;
    }
    proof {
        assert(spec_unrank(rank as nat, elems@) =~= Seq::<T>::empty());
        assert(result@ + Seq::<T>::empty() =~= result@);
    }
    result
}

/// The generator of `rand` that `Feistel::new` draws its round keys from.
#[verifier::external_type_specification]
#[verifier::external_body]
pub struct ExStdRng(StdRng);

/// `StdRng::seed_from_u64`: a generator seeded with `seed`. Nothing is
/// claimed of the generator.
#[verifier::external_body]
pub(crate) fn seeded_generator(seed: u64) -> (rng: StdRng) {
    StdRng::seed_from_u64(seed)
}

/// `RngCore::next_u32` on a `StdRng`: the generator's next number. Nothing
/// is claimed of the number.
#[verifier::external_body]
fn next_key(rng: &mut StdRng) -> (key: u32) {
    rng.next_u32()
}

/// A number turned left by thirteen bits.
pub open spec fn turned(v: u32) -> u32 {
    (v << 13u32) | (v >> 19u32)
}

/// What a round of the network makes of the right half and the round's key.
pub open spec fn mixed(r: u32, key: u32) -> u32 {
    turned(r.wrapping_mul(0x5bd1e995)) ^ key
}

/// The two halves after one round for each key of `keys`, in their order.
pub open spec fn after_rounds(l: u32, r: u32, keys: Seq<u32>, half_mask: u32) -> (u32, u32)
    decreases keys.len(),
{
    if keys.len() == 0 {
        (l, r)
    } else {
        let (prev_l, prev_r) = after_rounds(l, r, keys.drop_last(), half_mask);
        (prev_r, (prev_l ^ mixed(prev_r, keys.last())) & half_mask)
    }
}

/// The number of bits that it takes to write the numbers below `n`, at
/// least one.
pub open spec fn bits_for(n: u32) -> u32 {
    if u32_leading_zeros((n - 1) as u32) >= 31 {
        1
    } else {
        (32 - u32_leading_zeros((n - 1) as u32)) as u32
    }
}

/// The width that `Feistel::new` gives the network for a domain of `n`
/// numbers: `bits_for(n)`, raised to the next even number so that the
/// network has two halves of the same width.
pub open spec fn width_for(n: u32) -> u32 {
    if bits_for(n) % 2 == 1 {
        (bits_for(n) + 1) as u32
    } else {
        bits_for(n)
    }
}

/// A mask of `width` ones.
pub open spec fn mask_of(width: u32) -> u32 {
    if width >= 32 {
        0xffff_ffff
    } else {
        ((1u32 << width) - 1) as u32
    }
}

/// A keyed mixing of the numbers below `n`, built from a Feistel network
/// on `bits` bits and walked until it comes back below `n`.
pub struct Feistel {
    rounds: usize,
    keys: Vec<u32>,
    bits: u32,
    mask: u32,
    n: u32,
}

impl Feistel {
    /// The size of the domain.
    pub closed spec fn domain(&self) -> u32 {
        self.n
    }

    /// The round keys.
    pub closed spec fn round_keys(&self) -> Seq<u32> {
        self.keys@
    }

    /// The width of the network in bits.
    pub closed spec fn width(&self) -> u32 {
        self.bits
    }

    /// The invariant: a key for every round, an even width, and a mask of
    /// `width` ones.
    pub closed spec fn wf(&self) -> bool {
        &&& self.rounds == self.keys@.len()
        &&& 2 <= self.bits <= 32
        &&& self.bits % 2 == 0
        &&& self.mask == mask_of(self.bits)
        &&& 1 <= self.n <= self.mask + 1
    }

    /// What the network makes of `x`.
    pub closed spec fn spec_feistel(&self, x: u32) -> u32 {
        let half = self.bits / 2;
        let half_mask = ((1u32 << half) - 1) as u32;
        let (l, r) = after_rounds(x & half_mask, (x >> half) & half_mask, self.keys@, half_mask);
        (r << half) | l
    }

    /// One step of the walk: the network's result, cut to `width` bits.
    pub closed spec fn step(&self, x: u32) -> u32 {
        self.spec_feistel(x) & self.mask
    }

    /// The number reached from `x` after `k` steps.
    pub open spec fn walk(&self, x: u32, k: nat) -> u32
        decreases k,
    {
        if k == 0 {
            x
        } else {
            self.step(self.walk(x, (k - 1) as nat))
        }
    }

    /// The number of steps after which a walk is given up: as many as the
    /// network has numbers.
    pub closed spec fn patience(&self) -> nat {
        (self.mask + 1) as nat
    }

    /// A network for the numbers below `n` with the given round keys.
    pub fn with_keys(n: u32, keys: Vec<u32>) -> (f: Self)
        requires
            1 <= n <= 0x8000_0000,
        ensures
            f.wf(),
            f.domain() == n,
            f.round_keys() == keys@,
            f.width() == width_for(n),
    {
        let zeros = (n - 1).leading_zeros();
        proof {
            axiom_u32_leading_zeros((n - 1) as u32);
            let m = (n - 1) as u32;
            if zeros == 0 {
                assert((m >> 31u32) & 1u32 != 0u32 ==> m >= 0x8000_0000u32) by (bit_vector);
            }
        }
        let needed: u32 = if zeros >= 31 {
            1
        } else {
            32 - zeros
        };
        let bits: u32 = if needed % 2 == 1 {
            needed + 1
        } else {
            needed
        };
        let mask: u32 = if bits >= 32 {
            0xffff_ffff
        } else {
            assert(1u32 << bits >= 1u32) by (bit_vector)
                requires
                    1 <= bits <= 31,
            ;
            (1u32 << bits) - 1
        };
        proof {
            let m = (n - 1) as u32;
            let shift = (32 - zeros) as u32;
            assert(m >> shift == 0);
            if bits < 32 {
                assert(m <= ((1u32 << bits) - 1)) by (bit_vector)
                    requires
                        m >> shift == 0,
                        shift <= bits < 32,
                ;
            }
        }
        let rounds = keys.len();
        Feistel { rounds, keys, bits, mask, n }
    }

    /// A network for the numbers below `n`, with `rounds` round keys drawn
    /// from a generator that is seeded with `seed`.
    pub fn new(n: u32, seed: u64, rounds: usize) -> (f: Self)
        requires
            1 <= n <= 0x8000_0000,
        ensures
            f.wf(),
            f.domain() == n,
            f.round_keys().len() == rounds,
            f.width() == width_for(n),
    {
        let mut rng = seeded_generator(seed);
        let mut keys: Vec<u32> = Vec::new();
        let mut i: usize = 0;
        while i < rounds
            invariant
                0 <= i <= rounds,
                keys@.len() == i,
            decreases rounds - i,
        {
            let key = next_key(&mut rng);
            keys.push(key);
            i = i + 1;
        }
        Self::with_keys(n, keys)
    }

    /// Runs the network on `x`: splits `x` into two halves of half the
    /// width and lets each round swap them and mix the round's key in.
    pub fn feistel(&self, x: u32) -> (y: u32)
        requires
            self.wf(),
        ensures
            y == self.spec_feistel(x),
    {
        let half_bits: u32 = self.bits / 2;
        assert(1u32 << half_bits >= 1u32) by (bit_vector)
            requires
                0 <= half_bits <= 16,
        ;
        let half_mask: u32 = (1u32 << half_bits) - 1;
        let mut l: u32 = x & half_mask;
        let mut r: u32 = (x >> half_bits) & half_mask;
        let mut i: usize = 0;
        proof {
            assert(self.keys@.take(0) =~= Seq::<u32>::empty());
        }
        while i < self.rounds
            invariant
                self.wf(),
                0 <= i <= self.rounds,
                half_bits == self.bits / 2,
                half_mask == ((1u32 << half_bits) - 1) as u32,
                (l, r) == after_rounds(
                    x & half_mask,
                    (x >> half_bits) & half_mask,
                    self.keys@.take(i as int),
                    half_mask,
                ),
            decreases self.rounds - i,
        {
            let k = self.keys[i];
            let product = r.wrapping_mul(0x5bd1e995);
            let f = ((product << 13u32) | (product >> 19u32)) ^ k;
            let new_l = r;
            let new_r = (l ^ f) & half_mask;
            proof {
                let next = self.keys@.take(i + 1);
                assert(next.drop_last() =~= self.keys@.take(i as int));
                assert(next.last() == k);
            }
            l = new_l;
            r = new_r;
            i = i + 1;
        }
        proof {
            assert(self.keys@.take(self.rounds as int) =~= self.keys@);
        }
        (r << half_bits) | l
    }

    /// Maps `i` to a number below the size of the domain: walks from `i`,
    /// one run of the network per step, to the first number below that
    /// size. Returns nothing for an `i` outside the domain. Within the
    /// domain the walk always ends, and no two walks end at the same number.
    pub fn permute(&self, i: u32) -> (res: Option<u32>)
        requires
            self.wf(),
        ensures
            res is None <==> i >= self.domain(),
            res matches Some(y) ==> {
                &&& y < self.domain()
                &&& exists|k: nat|
                    1 <= k <= self.patience() && y == #[trigger] self.walk(i, k) && forall|j: nat|
                        1 <= j < k ==> #[trigger] self.walk(i, j) >= self.domain()
            },
    {
        if i >= self.n {
            return None;
        }
        let mut x: u32 = i;
        let mut left: u64 = self.mask as u64 + 1;
        let ghost mut k: nat = 0;
        while left > 0
            invariant
                self.wf(),
                i < self.n,
                k + left == self.patience(),
                x == self.walk(i, k),
                forall|j: nat| 1 <= j <= k ==> #[trigger] self.walk(i, j) >= self.n,
            decreases left,
        {
            let y = self.feistel(x) & self.mask;
            proof {
                k = k + 1;
                assert(y == self.walk(i, k));
            }
            if y < self.n {
                return Some(y);
            }
            x = y;
            left = left - 1;
        }
        proof {
            self.lemma_within(i);
            self.lemma_walk_returns(i);
            let back = choose|back: nat|
                1 <= back <= self.patience() && #[trigger] self.walk(i, back) == i;
            assert(self.walk(i, back) >= self.n);
        }
        None
    }
}

} // verus!
