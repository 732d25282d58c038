//! A banded locality-sensitive index over MinHash signatures.
use crate::minhash::RMinHash;
use rustc_hash::FxHasher;
use std::collections::HashMap;
use std::hash::Hasher;
use vstd::prelude::*;

verus! {

broadcast use vstd::std_specs::hash::group_hash_axioms;

/// What rustc-hash's `FxHasher` yields after `write_u32` of each value in turn.
pub uninterp spec fn fx_band_hash(band: Seq<u32>) -> u64;

/// The hash of band `i` of `sig`: the slots `i * band_size .. (i + 1) * band_size`.
pub open spec fn band_hash(sig: Seq<u32>, i: int, band_size: nat) -> u64 {
    fx_band_hash(sig.subrange(i * band_size, i * band_size + band_size))
}

/// Band `i` of `sig` already has a bucket in its table.
pub open spec fn band_hit(tables: Seq<Map<u64, Seq<usize>>>, sig: Seq<u32>, band_size: nat, i: int) -> bool {
    tables[i].contains_key(band_hash(sig, i, band_size))
}

/// Some band of `sig` already has a bucket.
pub open spec fn any_hit(tables: Seq<Map<u64, Seq<usize>>>, sig: Seq<u32>, band_size: nat) -> bool {
    exists|i: int| 0 <= i < tables.len() && band_hit(tables, sig, band_size, i)
}

/// The tables after `key` is appended to the bucket of each band of `sig`.
pub open spec fn inserted(
    tables: Seq<Map<u64, Seq<usize>>>,
    key: usize,
    sig: Seq<u32>,
    band_size: nat,
) -> Seq<Map<u64, Seq<usize>>> {
    Seq::new(
        tables.len(),
        |i: int|
            {
                let h = band_hash(sig, i, band_size);
                tables[i].insert(
                    h,
                    if tables[i].contains_key(h) {
                        tables[i][h].push(key)
                    } else {
                        seq![key]
                    },
                )
            },
    )
}

/// Every key held in the bucket of some band of `sig`.
pub open spec fn candidates(tables: Seq<Map<u64, Seq<usize>>>, sig: Seq<u32>, band_size: nat) -> Set<usize> {
    Set::new(
        |k: usize|
            exists|i: int|
                0 <= i < tables.len() && band_hit(tables, sig, band_size, i)
                    && #[trigger] tables[i][band_hash(sig, i, band_size)].contains(k),
    )
}

/// Band `j` is the first band of `sig` that already has a bucket.
pub open spec fn first_hit(tables: Seq<Map<u64, Seq<usize>>>, sig: Seq<u32>, band_size: nat, j: int) -> bool {
    &&& 0 <= j < tables.len()
    &&& band_hit(tables, sig, band_size, j)
    &&& forall|i: int| 0 <= i < j ==> !band_hit(tables, sig, band_size, i)
}

pub open spec fn strictly_ascending(s: Seq<usize>) -> bool {
    forall|i: int, j: int| 0 <= i < j < s.len() ==> s[i] < s[j]
}

proof fn lemma_push_contains(s: Seq<usize>, v: usize, k: usize)
    ensures
        s.push(v).contains(k) <==> (s.contains(k) || k == v),
{
    if s.push(v).contains(k) && k != v {
        let x = choose|x: int| 0 <= x < s.push(v).len() && s.push(v)[x] == k;
        assert(s[x] == k);
    }
    if s.contains(k) {
        let x = choose|x: int| 0 <= x < s.len() && s[x] == k;
        assert(s.push(v)[x] == k);
    }
    if k == v {
        assert(s.push(v)[s.len() as int] == k);
    }
}

/// Every key held in any bucket of any band.
pub open spec fn stored_keys(tables: Seq<Map<u64, Seq<usize>>>) -> Set<usize> {
    Set::new(
        |k: usize|
            exists|i: int, h: u64|
                0 <= i < tables.len() && tables[i].contains_key(h) && #[trigger] tables[i][h].contains(k),
    )
}

/// After `key` is inserted under `sig`, a query for `sig` returns `key`.
pub proof fn lemma_insert_then_query(tables: Seq<Map<u64, Seq<usize>>>, key: usize, sig: Seq<u32>, band_size: nat)
    requires
        tables.len() > 0,
    ensures
        candidates(inserted(tables, key, sig, band_size), sig, band_size).contains(key),
{
    let t = inserted(tables, key, sig, band_size);
    let h = band_hash(sig, 0, band_size);
    let bucket = if tables[0].contains_key(h) { tables[0][h].push(key) } else { seq![key] };
    assert(t[0][h] == bucket);
    assert(bucket[bucket.len() - 1] == key);
    assert(t[0][h].contains(key));
}

/// An index with no entries matches no signature.
pub proof fn lemma_empty_index_never_matches(tables: Seq<Map<u64, Seq<usize>>>, sig: Seq<u32>, band_size: nat)
    requires
        forall|i: int| 0 <= i < tables.len() ==> #[trigger] tables[i] == Map::<u64, Seq<usize>>::empty(),
    ensures
        !any_hit(tables, sig, band_size),
{
    assert forall|i: int| 0 <= i < tables.len() implies !band_hit(tables, sig, band_size, i) by {
        assert(tables[i] == Map::<u64, Seq<usize>>::empty());
    }
}

/// After a signature is inserted, the same signature matches, at the first band.
pub proof fn lemma_inserted_signature_matches(
    tables: Seq<Map<u64, Seq<usize>>>,
    key: usize,
    sig: Seq<u32>,
    band_size: nat,
)
    requires
        tables.len() > 0,
    ensures
        any_hit(inserted(tables, key, sig, band_size), sig, band_size),
        first_hit(inserted(tables, key, sig, band_size), sig, band_size, 0),
{
    let t = inserted(tables, key, sig, band_size);
    assert(band_hit(t, sig, band_size, 0));
}

/// Inserting `key` adds exactly `key` to the stored keys.
pub proof fn lemma_inserted_stored_keys(tables: Seq<Map<u64, Seq<usize>>>, key: usize, sig: Seq<u32>, band_size: nat)
    requires
        tables.len() > 0,
    ensures
        stored_keys(inserted(tables, key, sig, band_size)) == stored_keys(tables).insert(key),
{
    let t = inserted(tables, key, sig, band_size);
    assert forall|k: usize| stored_keys(t).contains(k) <==> stored_keys(tables).insert(key).contains(k) by {
        if stored_keys(t).contains(k) && k != key {
            let (i, h) = choose|i: int, h: u64|
                0 <= i < t.len() && t[i].contains_key(h) && #[trigger] t[i][h].contains(k);
            let hb = band_hash(sig, i, band_size);
            if h == hb && tables[i].contains_key(hb) {
                let x = choose|x: int| 0 <= x < t[i][h].len() && t[i][h][x] == k;
                assert(x < tables[i][h].len());
                assert(tables[i][h][x] == k);
                assert(tables[i][h].contains(k));
                assert(stored_keys(tables).contains(k));
            } else if h == hb {
                assert(t[i][h] == seq![key]);
                let x = choose|x: int| 0 <= x < t[i][h].len() && t[i][h][x] == k;
                assert(false);
            } else {
                assert(tables[i].contains_key(h));
                assert(t[i][h] == tables[i][h]);
                assert(tables[i][h].contains(k));
                assert(stored_keys(tables).contains(k));
            }
        }
        if stored_keys(tables).contains(k) {
            let (i, h) = choose|i: int, h: u64|
                0 <= i < tables.len() && tables[i].contains_key(h) && #[trigger] tables[i][h].contains(k);
            let hb = band_hash(sig, i, band_size);
            let x = choose|x: int| 0 <= x < tables[i][h].len() && tables[i][h][x] == k;
            if h == hb {
                assert(t[i][h] == tables[i][h].push(key));
                assert(t[i][h][x] == k);
            } else {
                assert(t[i][h] == tables[i][h]);
            }
            assert(t[i][h].contains(k));
        }
        if k == key {
            lemma_insert_then_query(tables, key, sig, band_size);
        }
    }
    assert(stored_keys(t) =~= stored_keys(tables).insert(key));
}

/// Inserting never removes a bucket: a band that collided before still collides.
pub proof fn lemma_insert_keeps_hits(
    tables: Seq<Map<u64, Seq<usize>>>,
    key: usize,
    inserted_sig: Seq<u32>,
    sig: Seq<u32>,
    band_size: nat,
)
    ensures
        forall|i: int|
            0 <= i < tables.len() && band_hit(tables, sig, band_size, i) ==> #[trigger] band_hit(
                inserted(tables, key, inserted_sig, band_size),
                sig,
                band_size,
                i,
            ),
        any_hit(tables, sig, band_size) ==> any_hit(inserted(tables, key, inserted_sig, band_size), sig, band_size),
{
    if any_hit(tables, sig, band_size) {
        let i = choose|i: int| 0 <= i < tables.len() && band_hit(tables, sig, band_size, i);
        assert(band_hit(inserted(tables, key, inserted_sig, band_size), sig, band_size, i));
    }
}

/// A signature that finds no match after `first` was inserted shares no band hash
/// with `first`: two records that collide on a band are never both accepted.
pub proof fn lemma_accepted_never_collide(
    tables: Seq<Map<u64, Seq<usize>>>,
    key: usize,
    first: Seq<u32>,
    second: Seq<u32>,
    band_size: nat,
)
    requires
        !any_hit(inserted(tables, key, first, band_size), second, band_size),
    ensures
        forall|i: int| 0 <= i < tables.len() ==> #[trigger] band_hash(first, i, band_size) != band_hash(second, i, band_size),
{
    let t = inserted(tables, key, first, band_size);
    assert forall|i: int| 0 <= i < tables.len() implies #[trigger] band_hash(first, i, band_size) != band_hash(second, i, band_size) by {
        assert(t[i].contains_key(band_hash(first, i, band_size)));
        assert(!band_hit(t, second, band_size, i));
    }
}

/// Relies on rustc-hash's `FxHasher`: `write_u32` of each slot of the band in turn,
/// then `finish`, a deterministic, unseeded hash of the values and their order.
#[verifier::external_body]
fn calculate_band_hash(digest: &Vec<u32>, start: usize, end: usize) -> (r: u64)
    requires
        start <= end <= digest@.len(),
    ensures
        r == fx_band_hash(digest@.subrange(start as int, end as int)),
{
    let mut hasher = FxHasher::default();
    for &value in &digest[start..end] {
        hasher.write_u32(value);
    }
    hasher.finish()
}

/// Relies on std's `slice::sort_unstable`: the same keys, in ascending order.
#[verifier::external_body]
fn sort_keys(v: &mut Vec<usize>)
    ensures
        final(v)@.to_multiset() == old(v)@.to_multiset(),
        forall|i: int, j: int| 0 <= i < j < final(v)@.len() ==> final(v)@[i] <= final(v)@[j],
{
    v.sort_unstable();
}

/// A banded index: one table per band from band hash to the keys inserted
/// under it, in insertion order.
pub struct RMinHashLSH {
    num_perm: usize,
    num_bands: usize,
    band_size: usize,
    hash_tables: Vec<HashMap<u64, Vec<usize>>>,
}

impl RMinHashLSH {
    /// The tables, one per band, with each bucket as a sequence of keys.
    pub closed spec fn tables(&self) -> Seq<Map<u64, Seq<usize>>> {
        self.hash_tables@.map_values(
            |t: HashMap<u64, Vec<usize>>| t@.map_values(|v: Vec<usize>| v@),
        )
    }

    pub closed spec fn num_perm(&self) -> nat {
        self.num_perm as nat
    }

    pub closed spec fn num_bands(&self) -> nat {
        self.num_bands as nat
    }

    pub closed spec fn band_size(&self) -> nat {
        self.band_size as nat
    }

    /// One table per band, at least one band, and bands of `num_perm / num_bands`
    /// slots.
    pub open spec fn wf(&self) -> bool {
        &&& self.num_bands() > 0
        &&& self.tables().len() == self.num_bands()
        &&& self.band_size() == self.num_perm() / self.num_bands()
    }

    /// An empty index over signatures of `num_perm` slots split into `num_bands`
    /// bands of `num_perm / num_bands` slots; trailing slots belong to no band.
    pub fn new(num_perm: usize, num_bands: usize) -> (r: Self)
        requires
            num_bands > 0,
        ensures
            r.wf(),
            r.num_perm() == num_perm,
            r.num_bands() == num_bands,
            r.band_size() == num_perm / num_bands,
            forall|i: int| 0 <= i < num_bands ==> #[trigger] r.tables()[i] == Map::<u64, Seq<usize>>::empty(),
    {
        let mut hash_tables: Vec<HashMap<u64, Vec<usize>>> = Vec::new();
        let mut i: usize = 0;
        while i < num_bands
            invariant
                i <= num_bands,
                hash_tables@.len() == i,
                forall|k: int| 0 <= k < i ==> #[trigger] hash_tables@[k]@ == Map::<u64, Vec<usize>>::empty(),
            decreases num_bands - i,
        {
            hash_tables.push(HashMap::new());
            i = i + 1;
        }
        let r = RMinHashLSH { num_perm, num_bands, band_size: num_perm / num_bands, hash_tables };
        assert forall|i: int| 0 <= i < num_bands implies #[trigger] r.tables()[i] == Map::<u64, Seq<usize>>::empty() by {
            assert(r.tables()[i] =~= Map::<u64, Seq<usize>>::empty());
        }
        r
    }

    /// Appends `key` to the bucket of each band of `minhash`, creating the bucket
    /// where it is absent.
    pub fn insert(&mut self, key: usize, minhash: &RMinHash)
        requires
            old(self).wf(),
            old(self).num_bands() * old(self).band_size() <= minhash.slots().len(),
        ensures
            final(self).wf(),
            final(self).num_perm() == old(self).num_perm(),
            final(self).num_bands() == old(self).num_bands(),
            final(self).band_size() == old(self).band_size(),
            final(self).tables() == inserted(old(self).tables(), key, minhash.slots(), old(self).band_size()),
    {
        let digest = minhash.digest();
        let ghost start_tables = self.tables();
        let ghost sig = digest@;
        let ghost goal = inserted(start_tables, key, sig, self.band_size as nat);
        let mut i: usize = 0;
        while i < self.num_bands
            invariant
                self.wf(),
                self.num_perm == old(self).num_perm,
                self.num_bands == old(self).num_bands,
                self.band_size == old(self).band_size,
                start_tables == old(self).tables(),
                start_tables.len() == self.num_bands,
                sig == digest@,
                goal == inserted(start_tables, key, sig, self.band_size as nat),
                self.num_bands * self.band_size <= digest@.len(),
                i <= self.num_bands,
                forall|k: int| 0 <= k < i ==> #[trigger] self.tables()[k] == goal[k],
                forall|k: int| i <= k < self.num_bands ==> #[trigger] self.tables()[k] == start_tables[k],
            decreases self.num_bands - i,
        {
            proof {
                let (ii, nb, bs) = (i as int, self.num_bands as int, self.band_size as int);
                assert(ii * bs + bs <= nb * bs) by (nonlinear_arith)
                    requires ii < nb, bs >= 0;
                assert(ii * bs + bs <= digest.len());
                assert(0 <= ii * bs) by (nonlinear_arith)
                    requires ii >= 0, bs >= 0;
            }
            let start = i * self.band_size;
            let end = start + self.band_size;
            let bh = calculate_band_hash(&digest, start, end);
            let ghost h = bh;
            let ghost ht0 = self.hash_tables@;
            let ghost tabs0 = self.tables();
            assert(tabs0[i as int] == start_tables[i as int]);
            assert(start_tables.len() == self.num_bands);
            assert(h == band_hash(sig, i as int, self.band_size as nat));
            let mut table: HashMap<u64, Vec<usize>> = HashMap::new();
            self.hash_tables.set_and_swap(i, &mut table);
            let ghost t0 = table@;
            assert(tabs0[i as int] == t0.map_values(|v: Vec<usize>| v@));
            let mut bucket = match table.remove(&bh) {
                Some(v) => v,
                None => Vec::new(),
            };
            let ghost t1 = table@;
            assert(t1 == t0.remove(h));
            bucket.push(key);
            assert(bucket@ == if t0.contains_key(h) { t0[h]@.push(key) } else { seq![key] }) by {
                if t0.contains_key(h) {
                    assert(bucket@ == t0[h]@.push(key));
                } else {
                    assert(bucket@ =~= seq![key]);
                }
            }
            table.insert(bh, bucket);
            let ghost t2 = table@;
            assert(t2 == t1.insert(h, bucket));
            self.hash_tables.set_and_swap(i, &mut table);
            proof {
                assert(self.hash_tables@ == ht0.update(i as int, self.hash_tables@[i as int]));
                assert forall|k: int| 0 <= k < self.num_bands && k != i implies #[trigger] self.tables()[k] == tabs0[k] by {
                    assert(self.hash_tables@[k] == ht0[k]);
                }
                assert(self.hash_tables@[i as int]@ == t2);
                assert(self.tables()[i as int] == t2.map_values(|v: Vec<usize>| v@));
                assert(goal[i as int] == tabs0[i as int].insert(
                    h,
                    if tabs0[i as int].contains_key(h) { tabs0[i as int][h].push(key) } else { seq![key] },
                ));
                assert(t2.map_values(|v: Vec<usize>| v@) =~= tabs0[i as int].insert(
                    h,
                    if tabs0[i as int].contains_key(h) { tabs0[i as int][h].push(key) } else { seq![key] },
                ));
            }
            i = i + 1;
        }
        assert(self.tables() =~= goal);
    }

    /// Every key that shares a band hash with `minhash` in some band, each once,
    /// in ascending order.
    pub fn query(&self, minhash: &RMinHash) -> (r: Vec<usize>)
        requires
            self.wf(),
            self.num_bands() * self.band_size() <= minhash.slots().len(),
        ensures
            strictly_ascending(r@),
            forall|k: usize| r@.contains(k) <==> candidates(self.tables(), minhash.slots(), self.band_size()).contains(k),
    {
        broadcast use vstd::seq_lib::group_to_multiset_ensures;
        let digest = minhash.digest();
        let ghost sig = digest@;
        let ghost tabs = self.tables();
        let ghost bs = self.band_size as nat;
        let mut found: Vec<usize> = Vec::new();
        let mut i: usize = 0;
        while i < self.num_bands
            invariant
                self.wf(),
                tabs == self.tables(),
                sig == digest@,
                sig == minhash.slots(),
                bs == self.band_size(),
                self.num_bands * self.band_size <= digest@.len(),
                i <= self.num_bands,
                forall|k: usize| found@.contains(k) <==> exists|b: int|
                    0 <= b < i && band_hit(tabs, sig, bs, b)
                        && #[trigger] tabs[b][band_hash(sig, b, bs)].contains(k),
            decreases self.num_bands - i,
        {
            proof {
                let (ii, nb, bsz) = (i as int, self.num_bands as int, self.band_size as int);
                assert(ii * bsz + bsz <= nb * bsz) by (nonlinear_arith)
                    requires ii < nb, bsz >= 0;
                assert(ii * bsz + bsz <= digest.len());
                assert(0 <= ii * bsz) by (nonlinear_arith)
                    requires ii >= 0, bsz >= 0;
            }
            let start = i * self.band_size;
            let end = start + self.band_size;
            let bh = calculate_band_hash(&digest, start, end);
            let ghost h = bh;
            assert(h == band_hash(sig, i as int, bs));
            let ghost before = found@;
            match self.hash_tables[i].get(&bh) {
                Some(keys) => {
                    assert(tabs[i as int][h] == keys@);
                    let mut j: usize = 0;
                    while j < keys.len()
                        invariant
                            j <= keys@.len(),
                            found@ == before + keys@.take(j as int),
                        decreases keys.len() - j,
                    {
                        found.push(keys[j]);
                        j = j + 1;
                        assert(found@ =~= before + keys@.take(j as int));
                    }
                    assert(keys@.take(keys@.len() as int) =~= keys@);
                    assert forall|k: usize| found@.contains(k) <==> exists|b: int|
                        0 <= b < i + 1 && band_hit(tabs, sig, bs, b)
                            && #[trigger] tabs[b][band_hash(sig, b, bs)].contains(k) by {
                        if found@.contains(k) {
                            let x = choose|x: int| 0 <= x < found@.len() && found@[x] == k;
                            if x >= before.len() {
                                assert(keys@[x - before.len()] == k);
                                assert(tabs[i as int][band_hash(sig, i as int, bs)].contains(k));
                            } else {
                                assert(before[x] == k);
                                assert(before.contains(k));
                            }
                        }
                        if exists|b: int|
                            0 <= b < i + 1 && band_hit(tabs, sig, bs, b)
                                && #[trigger] tabs[b][band_hash(sig, b, bs)].contains(k) {
                            let b = choose|b: int|
                                0 <= b < i + 1 && band_hit(tabs, sig, bs, b)
                                    && #[trigger] tabs[b][band_hash(sig, b, bs)].contains(k);
                            if b == i {
                                let x = choose|x: int| 0 <= x < keys@.len() && keys@[x] == k;
                                assert(found@[before.len() + x] == k);
                            } else {
                                assert(before.contains(k));
                                let x = choose|x: int| 0 <= x < before.len() && before[x] == k;
                                assert(found@[x] == k);
                            }
                        }
                    }
                },
                None => {
                    assert(!band_hit(tabs, sig, bs, i as int));
                    assert forall|k: usize| found@.contains(k) <==> exists|b: int|
                        0 <= b < i + 1 && band_hit(tabs, sig, bs, b)
                            && #[trigger] tabs[b][band_hash(sig, b, bs)].contains(k) by {
                        if exists|b: int|
                            0 <= b < i + 1 && band_hit(tabs, sig, bs, b)
                                && #[trigger] tabs[b][band_hash(sig, b, bs)].contains(k) {
                            let b = choose|b: int|
                                0 <= b < i + 1 && band_hit(tabs, sig, bs, b)
                                    && #[trigger] tabs[b][band_hash(sig, b, bs)].contains(k);
                            assert(b != i);
                        }
                    }
                },
            }
            i = i + 1;
        }
        let ghost unsorted = found@;
        sort_keys(&mut found);
        assert forall|k: usize| found@.contains(k) <==> unsorted.contains(k) by {
            assert(found@.contains(k) <==> found@.to_multiset().count(k) > 0);
            assert(unsorted.contains(k) <==> unsorted.to_multiset().count(k) > 0);
        }
        let mut r: Vec<usize> = Vec::new();
        let mut j: usize = 0;
        while j < found.len()
            invariant
                j <= found@.len(),
                strictly_ascending(r@),
                forall|a: int, b: int| 0 <= a < b < found@.len() ==> found@[a] <= found@[b],
                j > 0 ==> r@.len() > 0 && r@.last() == found@[j - 1],
                j == 0 ==> r@.len() == 0,
                forall|k: usize| r@.contains(k) <==> found@.take(j as int).contains(k),
            decreases found.len() - j,
        {
            let v = found[j];
            let ghost r0 = r@;
            if r.len() == 0 || r[r.len() - 1] != v {
                r.push(v);
                assert forall|a: int, b: int| 0 <= a < b < r@.len() implies r@[a] < r@[b] by {
                    if b == r@.len() - 1 && a < b {
                        assert(r0[a] <= r0.last());
                        assert(r0.last() == found@[j - 1]);
                    }
                }
                assert(found@.take(j + 1) =~= found@.take(j as int).push(v));
                assert forall|k: usize| r@.contains(k) <==> found@.take(j + 1).contains(k) by {
                    lemma_push_contains(r0, v, k);
                    lemma_push_contains(found@.take(j as int), v, k);
                }
            } else {
                assert(found@.take(j + 1) =~= found@.take(j as int).push(v));
                assert(r@.contains(v)) by {
                    assert(r@[r@.len() - 1] == v);
                }
                assert forall|k: usize| r@.contains(k) <==> found@.take(j + 1).contains(k) by {
                    lemma_push_contains(found@.take(j as int), v, k);
                }
            }
            j = j + 1;
        }
        assert(found@.take(found@.len() as int) =~= found@);
        assert forall|k: usize| r@.contains(k) <==> candidates(tabs, sig, bs).contains(k) by {
            if unsorted.contains(k) {
                let b = choose|b: int|
                    0 <= b < self.num_bands && band_hit(tabs, sig, bs, b)
                        && #[trigger] tabs[b][band_hash(sig, b, bs)].contains(k);
            }
            if candidates(tabs, sig, bs).contains(k) {
                let b = choose|b: int|
                    0 <= b < tabs.len() && band_hit(tabs, sig, bs, b)
                        && #[trigger] tabs[b][band_hash(sig, b, bs)].contains(k);
                assert(unsorted.contains(k));
            }
        }
        r
    }

    /// The bucket of the first band, in ascending band order, whose hash for
    /// `minhash` is already in that band's table; `None` where no band has one.
    pub fn any_matches(&self, minhash: &RMinHash) -> (r: Option<&Vec<usize>>)
        requires
            self.wf(),
            self.num_bands() * self.band_size() <= minhash.slots().len(),
        ensures
            r is None <==> !any_hit(self.tables(), minhash.slots(), self.band_size()),
            match r {
                Some(b) => exists|j: int|
                    first_hit(self.tables(), minhash.slots(), self.band_size(), j)
                        && b@ == #[trigger] self.tables()[j][band_hash(minhash.slots(), j, self.band_size())],
                None => true,
            },
    {
        let digest = minhash.digest();
        let ghost sig = digest@;
        let ghost tabs = self.tables();
        let ghost bs = self.band_size as nat;
        let mut i: usize = 0;
        while i < self.num_bands
            invariant
                self.wf(),
                tabs == self.tables(),
                sig == digest@,
                sig == minhash.slots(),
                bs == self.band_size(),
                self.num_bands * self.band_size <= digest@.len(),
                i <= self.num_bands,
                forall|b: int| 0 <= b < i ==> !band_hit(tabs, sig, bs, b),
            decreases self.num_bands - i,
        {
            proof {
                let (ii, nb, bsz) = (i as int, self.num_bands as int, self.band_size as int);
                assert(ii * bsz + bsz <= nb * bsz) by (nonlinear_arith)
                    requires ii < nb, bsz >= 0;
                assert(ii * bsz + bsz <= digest.len());
                assert(0 <= ii * bsz) by (nonlinear_arith)
                    requires ii >= 0, bsz >= 0;
            }
            let start = i * self.band_size;
            let end = start + self.band_size;
            let bh = calculate_band_hash(&digest, start, end);
            assert(bh == band_hash(sig, i as int, bs));
            match self.hash_tables.get(i).unwrap().get(&bh) {
                Some(keys) => {
                    assert(tabs[i as int][bh] == keys@);
                    assert(first_hit(tabs, sig, bs, i as int));
                    return Some(keys);
                },
                None => {},
            }
            i = i + 1;
        }
        None
    }

    /// The number of permutations.
    pub fn get_num_perm(&self) -> (r: usize)
        ensures
            r == self.num_perm(),
    {
        self.num_perm
    }

    /// The number of bands.
    pub fn get_num_bands(&self) -> (r: usize)
        ensures
            r == self.num_bands(),
    {
        self.num_bands
    }
}

} // verus!
