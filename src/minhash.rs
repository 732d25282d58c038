//! MinHash signatures: a fixed-length sketch of a token set built from running
//! minima over a seeded family of hash permutations.
use rand::rngs::StdRng;
use rand::{Rng, SeedableRng};
use rustc_hash::FxHasher;
use std::hash::{Hash, Hasher};
use vstd::prelude::*;

verus! {

/// What rustc-hash's `FxHasher` yields for a string hashed through `Hash`.
pub uninterp spec fn fx_hash_str(s: Seq<char>) -> u64;

/// The first `n` values that rand's `StdRng` seeded with `seed` yields as `u64`s.
pub uninterp spec fn seeded_u64s(seed: u64, n: nat) -> Seq<u64>;

/// The upper 32 bits of `(a * hash + b) mod 2^64`.
pub open spec fn permuted(hash: u64, a: u64, b: u64) -> u32 {
    (((a as nat * hash as nat + b as nat) % 0x1_0000_0000_0000_0000) / 0x1_0000_0000) as u32
}

pub open spec fn min_u32(x: u32, y: u32) -> u32 {
    if x <= y { x } else { y }
}

/// The value of a slot that started at `v` after observing every hash of `hashes`
/// under the permutation `(a, b)`.
pub open spec fn slot_after(v: u32, hashes: Seq<u64>, a: u64, b: u64) -> u32
    decreases hashes.len(),
{
    if hashes.len() == 0 {
        v
    } else {
        min_u32(slot_after(v, hashes.drop_last(), a, b), permuted(hashes.last(), a, b))
    }
}

/// The content hash of each token.
pub open spec fn token_hashes(items: Seq<Seq<char>>) -> Seq<u64> {
    items.map_values(|t: Seq<char>| fx_hash_str(t))
}

/// The slots after observing every token of `items`, slot `i` under permutation `i`.
pub open spec fn updated_slots(slots: Seq<u32>, perms: Seq<(u64, u64)>, items: Seq<Seq<char>>) -> Seq<u32> {
    Seq::new(
        slots.len(),
        |i: int|
            if i < perms.len() {
                slot_after(slots[i], token_hashes(items), perms[i].0, perms[i].1)
            } else {
                slots[i]
            },
    )
}

/// A signature on which nothing has been observed yet.
pub open spec fn fresh_slots(n: nat) -> Seq<u32> {
    Seq::new(n, |i: int| u32::MAX)
}

/// The permutation family of `n` coefficient pairs drawn from `seed`.
pub open spec fn family(n: nat, seed: u64) -> Seq<(u64, u64)> {
    Seq::new(n, |i: int| (seeded_u64s(seed, 2 * n)[2 * i], seeded_u64s(seed, 2 * n)[2 * i + 1]))
}

/// The number of positions, below the shorter length, where two signatures agree.
pub open spec fn agreeing(x: Seq<u32>, y: Seq<u32>, n: nat) -> nat
    decreases n,
{
    if n == 0 {
        0
    } else {
        agreeing(x, y, (n - 1) as nat) + if x[n - 1] == y[n - 1] { 1nat } else { 0nat }
    }
}

pub open spec fn min_len(x: Seq<u32>, y: Seq<u32>) -> nat {
    if x.len() <= y.len() { x.len() } else { y.len() }
}

/// Relies on rustc-hash's `FxHasher` with `Hash for str`: a deterministic,
/// unseeded hash of the string's contents.
#[verifier::external_body]
fn calculate_hash(item: &str) -> (r: u64)
    ensures
        r == fx_hash_str(item@),
{
    let mut s = FxHasher::default();
    item.hash(&mut s);
    s.finish()
}

/// Relies on rand's `StdRng::seed_from_u64` and `Rng::gen::<u64>`: a generator
/// seeded with a fixed value yields a fixed stream of values.
#[verifier::external_body]
fn seeded_draws(seed: u64, n: usize) -> (r: Vec<u64>)
    ensures
        r@ == seeded_u64s(seed, n as nat),
        r@.len() == n,
{
    let mut rng = StdRng::seed_from_u64(seed);
    let mut out = Vec::with_capacity(n);
    for _ in 0..n {
        out.push(rng.gen::<u64>());
    }
    out
}

/// Applies the permutation `(a, b)` to a 64-bit hash, keeping the upper 32 bits.
pub fn permute_hash(hash: u64, a: u64, b: u64) -> (r: u32)
    ensures
        r == permuted(hash, a, b),
{
    let x: u64 = a.wrapping_mul(hash).wrapping_add(b);
    proof {
        let p = (a as nat * hash as nat) % 0x1_0000_0000_0000_0000;
        assert(p < 0x1_0000_0000_0000_0000);
        assert(x as nat == (p + b as nat) % 0x1_0000_0000_0000_0000);
        assert((p + b as nat) % 0x1_0000_0000_0000_0000 == (a as nat * hash as nat + b as nat)
            % 0x1_0000_0000_0000_0000) by {
            vstd::arithmetic::div_mod::lemma_add_mod_noop(
                (a as nat * hash as nat) as int,
                b as int,
                0x1_0000_0000_0000_0000int,
            );
            vstd::arithmetic::div_mod::lemma_mod_twice(b as int, 0x1_0000_0000_0000_0000int);
        }
        assert(x >> 32 == x / 0x1_0000_0000) by (bit_vector);
    }
    (x >> 32) as u32
}

/// A MinHash signature together with the permutation family that builds it.
pub struct RMinHash {
    num_perm: usize,
    hash_values: Vec<u32>,
    permutations: Vec<(u64, u64)>,
}

impl RMinHash {
    /// The current value of each slot.
    pub closed spec fn slots(&self) -> Seq<u32> {
        self.hash_values@
    }

    /// The coefficient pairs, one per slot.
    pub closed spec fn perms(&self) -> Seq<(u64, u64)> {
        self.permutations@
    }

    pub closed spec fn num_perm(&self) -> nat {
        self.num_perm as nat
    }

    /// One slot and one permutation per permutation count.
    pub open spec fn wf(&self) -> bool {
        &&& self.slots().len() == self.num_perm()
        &&& self.perms().len() == self.num_perm()
    }

    /// A fresh signature of `num_perm` slots, each at the maximum, with the
    /// permutation family drawn from `seed`.
    pub fn new(num_perm: usize, seed: u64) -> (r: Self)
        requires
            num_perm <= usize::MAX / 2,
        ensures
            r.wf(),
            r.num_perm() == num_perm,
            r.slots() == fresh_slots(num_perm as nat),
            r.perms() == family(num_perm as nat, seed),
    {
        let draws = seeded_draws(seed, 2 * num_perm);
        let mut permutations: Vec<(u64, u64)> = Vec::with_capacity(num_perm);
        let mut hash_values: Vec<u32> = Vec::with_capacity(num_perm);
        let mut i: usize = 0;
        while i < num_perm
            invariant
                i <= num_perm <= usize::MAX / 2,
                draws@ == seeded_u64s(seed, 2 * num_perm as nat),
                draws@.len() == 2 * num_perm,
                permutations@ == family(num_perm as nat, seed).take(i as int),
                hash_values@ == fresh_slots(i as nat),
            decreases num_perm - i,
        {
            permutations.push((draws[2 * i], draws[2 * i + 1]));
            hash_values.push(u32::MAX);
            i = i + 1;
            assert(permutations@ =~= family(num_perm as nat, seed).take(i as int));
            assert(hash_values@ =~= fresh_slots(i as nat));
        }
        assert(permutations@ =~= family(num_perm as nat, seed));
        RMinHash { num_perm, hash_values, permutations }
    }

    /// Observes every token of `items`: each slot keeps the minimum of its value and
    /// the token's permuted hash.
    pub fn update(&mut self, items: Vec<&str>)
        requires
            old(self).wf(),
        ensures
            final(self).wf(),
            final(self).num_perm() == old(self).num_perm(),
            final(self).perms() == old(self).perms(),
            final(self).slots() == updated_slots(
                old(self).slots(),
                old(self).perms(),
                items@.map_values(|t: &str| t@),
            ),
    {
        let ghost start = self.hash_values@;
        let ghost toks = items@.map_values(|t: &str| t@);
        let n = self.permutations.len();
        let mut j: usize = 0;
        while j < items.len()
            invariant
                self.wf(),
                self.num_perm == old(self).num_perm,
                self.permutations@ == old(self).perms(),
                n == self.permutations@.len(),
                start == old(self).slots(),
                toks == items@.map_values(|t: &str| t@),
                j <= items@.len(),
                self.hash_values@ == updated_slots(start, self.permutations@, toks.take(j as int)),
            decreases items.len() - j,
        {
            let item_hash = calculate_hash(items[j]);
            let ghost before = toks.take(j as int);
            let ghost after = toks.take(j as int + 1);
            assert(token_hashes(after).drop_last() =~= token_hashes(before));
            assert(token_hashes(after).last() == item_hash);
            let mut i: usize = 0;
            while i < n
                invariant
                    self.wf(),
                    self.num_perm == old(self).num_perm,
                    self.permutations@ == old(self).perms(),
                    n == self.permutations@.len(),
                    i <= n,
                    token_hashes(after).drop_last() == token_hashes(before),
                    token_hashes(after).last() == item_hash,
                    token_hashes(after).len() > 0,
                    forall|k: int| 0 <= k < i ==> #[trigger] self.hash_values@[k] == slot_after(
                        start[k],
                        token_hashes(after),
                        self.permutations@[k].0,
                        self.permutations@[k].1,
                    ),
                    forall|k: int| i <= k < n ==> #[trigger] self.hash_values@[k] == slot_after(
                        start[k],
                        token_hashes(before),
                        self.permutations@[k].0,
                        self.permutations@[k].1,
                    ),
                decreases n - i,
            {
                let (a, b) = self.permutations[i];
                let hash = permute_hash(item_hash, a, b);
                let cur = self.hash_values[i];
                let m = if cur <= hash { cur } else { hash };
                self.hash_values.set(i, m);
                i = i + 1;
            }
            j = j + 1;
            assert(self.hash_values@ =~= updated_slots(start, self.permutations@, toks.take(j as int)));
        }
        assert(toks.take(items@.len() as int) =~= toks);
    }

    /// A snapshot of the slots.
    pub fn digest(&self) -> (r: Vec<u32>)
        ensures
            r@ == self.slots(),
    {
        let r = self.hash_values.clone();
        assert(r@ =~= self.hash_values@);
        r
    }

    /// The number of slots, below the shorter of the two lengths, where the two
    /// signatures agree.
    pub fn equal_count(&self, other: &RMinHash) -> (r: usize)
        ensures
            r == agreeing(self.slots(), other.slots(), min_len(self.slots(), other.slots())),
    {
        let n = if self.hash_values.len() <= other.hash_values.len() {
            self.hash_values.len()
        } else {
            other.hash_values.len()
        };
        let mut count: usize = 0;
        let mut i: usize = 0;
        while i < n
            invariant
                n == min_len(self.slots(), other.slots()),
                i <= n,
                count == agreeing(self.slots(), other.slots(), i as nat),
                count <= i,
            decreases n - i,
        {
            if self.hash_values[i] == other.hash_values[i] {
                count = count + 1;
            }
            i = i + 1;
        }
        count
    }

    /// The number of permutations.
    pub fn get_num_perm(&self) -> (r: usize)
        ensures
            r == self.num_perm(),
    {
        self.num_perm
    }
}

/// A slot never rises, never exceeds the permuted value of any observed hash, and
/// is either where it started or one of those permuted values.
pub proof fn lemma_slot_after_is_minimum(v: u32, hashes: Seq<u64>, a: u64, b: u64)
    ensures
        slot_after(v, hashes, a, b) <= v,
        forall|j: int|
            0 <= j < hashes.len() ==> slot_after(v, hashes, a, b) <= #[trigger] permuted(
                hashes[j],
                a,
                b,
            ),
        slot_after(v, hashes, a, b) == v || exists|j: int|
            0 <= j < hashes.len() && slot_after(v, hashes, a, b) == #[trigger] permuted(
                hashes[j],
                a,
                b,
            ),
    decreases hashes.len(),
{
    if hashes.len() > 0 {
        let init = hashes.drop_last();
        lemma_slot_after_is_minimum(v, init, a, b);
        assert forall|j: int| 0 <= j < hashes.len() implies slot_after(v, hashes, a, b)
            <= #[trigger] permuted(hashes[j], a, b) by {
            if j < init.len() {
                assert(init[j] == hashes[j]);
            }
        }
        if slot_after(v, hashes, a, b) != v {
            if slot_after(v, hashes, a, b) == permuted(hashes.last(), a, b) {
                assert(permuted(hashes[hashes.len() - 1], a, b) == slot_after(v, hashes, a, b));
            } else {
                let j = choose|j: int|
                    0 <= j < init.len() && slot_after(v, init, a, b) == #[trigger] permuted(
                        init[j],
                        a,
                        b,
                    );
                assert(permuted(hashes[j], a, b) == slot_after(v, hashes, a, b));
            }
        }
    }
}

/// Observing the same set of tokens gives the same slots, whatever their order
/// and however often each token repeats.
pub proof fn lemma_update_ignores_order(
    slots: Seq<u32>,
    perms: Seq<(u64, u64)>,
    items1: Seq<Seq<char>>,
    items2: Seq<Seq<char>>,
)
    requires
        items1.to_set() == items2.to_set(),
    ensures
        updated_slots(slots, perms, items1) == updated_slots(slots, perms, items2),
{
    assert forall|i: int| 0 <= i < slots.len() implies #[trigger] updated_slots(
        slots,
        perms,
        items1,
    )[i] == updated_slots(slots, perms, items2)[i] by {
        if i < perms.len() {
            lemma_slot_after_dominated(slots[i], items1, items2, perms[i].0, perms[i].1);
            lemma_slot_after_dominated(slots[i], items2, items1, perms[i].0, perms[i].1);
        }
    }
    assert(updated_slots(slots, perms, items1) =~= updated_slots(slots, perms, items2));
}

proof fn lemma_slot_after_dominated(v: u32, items1: Seq<Seq<char>>, items2: Seq<Seq<char>>, a: u64, b: u64)
    requires
        items1.to_set() == items2.to_set(),
    ensures
        slot_after(v, token_hashes(items1), a, b) <= slot_after(v, token_hashes(items2), a, b),
{
    let h1 = token_hashes(items1);
    let h2 = token_hashes(items2);
    lemma_slot_after_is_minimum(v, h1, a, b);
    lemma_slot_after_is_minimum(v, h2, a, b);
    if slot_after(v, h2, a, b) != v {
        let k = choose|k: int|
            0 <= k < h2.len() && slot_after(v, h2, a, b) == #[trigger] permuted(h2[k], a, b);
        assert(items2.to_set().contains(items2[k]));
        assert(items1.contains(items2[k]));
        let j = choose|j: int| 0 <= j < items1.len() && items1[j] == items2[k];
        assert(h1[j] == h2[k]);
    }
}

/// Two fresh signatures of one size and seed that observe the same set of tokens,
/// in any order, end with identical slots.
pub proof fn lemma_same_seed_ignores_order(
    n: nat,
    seed: u64,
    items1: Seq<Seq<char>>,
    items2: Seq<Seq<char>>,
)
    requires
        items1.to_set() == items2.to_set(),
    ensures
        updated_slots(fresh_slots(n), family(n, seed), items1) == updated_slots(
            fresh_slots(n),
            family(n, seed),
            items2,
        ),
{
    lemma_update_ignores_order(fresh_slots(n), family(n, seed), items1, items2);
}

/// A signature agrees with itself in every slot, and two signatures of one size
/// agree in at most that many slots.
pub proof fn lemma_agreement_bounds(x: RMinHash, y: RMinHash)
    requires
        x.wf(),
        y.wf(),
        x.num_perm() == y.num_perm(),
    ensures
        agreeing(x.slots(), x.slots(), min_len(x.slots(), x.slots())) == x.num_perm(),
        agreeing(x.slots(), y.slots(), min_len(x.slots(), y.slots())) <= x.num_perm(),
{
    lemma_agreeing_bounds(x.slots(), y.slots(), x.num_perm());
    lemma_agreeing_bounds(x.slots(), x.slots(), x.num_perm());
}

proof fn lemma_agreeing_bounds(x: Seq<u32>, y: Seq<u32>, n: nat)
    requires
        n <= x.len(),
        n <= y.len(),
    ensures
        agreeing(x, y, n) <= n,
        x == y ==> agreeing(x, y, n) == n,
    decreases n,
{
    if n > 0 {
        lemma_agreeing_bounds(x, y, (n - 1) as nat);
    }
}

} // verus!
