//! The accept-or-reject decision for each record: a record is kept only where no
//! band of its signature collides with a record kept before it.
use crate::lsh::{any_hit, inserted, stored_keys, RMinHashLSH};
use crate::minhash::{family, fresh_slots, updated_slots, RMinHash};
use vstd::prelude::*;

verus! {

/// Slots per signature.
pub const NUM_PERM: usize = 256;

/// Bands of the index.
pub const NUM_BANDS: usize = 5;

/// Seed of the permutation family shared by every signature.
pub const SEED: u64 = 0;

/// A record: a name and a text body.
pub struct File {
    pub filename: String,
    pub contents: String,
}

/// What std's `str::to_lowercase` yields for a string.
pub uninterp spec fn lower_of(s: Seq<char>) -> Seq<char>;

/// The pieces of `s` between occurrences of `sep`, in order; consecutive
/// separators give empty pieces, and a string without `sep` is one piece.
pub open spec fn split_on(s: Seq<char>, sep: char) -> Seq<Seq<char>>
    decreases s.len(),
{
    if s.len() == 0 {
        seq![Seq::<char>::empty()]
    } else {
        let prev = split_on(s.drop_last(), sep);
        if s.last() == sep {
            prev.push(Seq::<char>::empty())
        } else {
            prev.update(prev.len() - 1, prev.last().push(s.last()))
        }
    }
}

/// The tokens of a record's text: its lowercase form split on single spaces.
pub open spec fn record_tokens(contents: Seq<char>) -> Seq<Seq<char>> {
    split_on(lower_of(contents), ' ')
}

/// Relies on std's `str::to_lowercase`: the result depends on the characters alone.
#[verifier::external_body]
fn lowercase(s: &str) -> (r: String)
    ensures
        r@ == lower_of(s@),
{
    s.to_lowercase()
}

/// Relies on std's `str::split` with a `char` pattern: the pieces between the
/// separators, in order.
#[verifier::external_body]
fn split_spaces(s: &str) -> (r: Vec<&str>)
    ensures
        r@.map_values(|t: &str| t@) == split_on(s@, ' '),
{
    s.split(' ').collect()
}

/// The signature of a record's text under the family of `num_perm` permutations
/// drawn from `seed`.
pub fn record_signature(contents: &str, num_perm: usize, seed: u64) -> (r: RMinHash)
    requires
        num_perm <= usize::MAX / 2,
    ensures
        r.wf(),
        r.num_perm() == num_perm,
        r.perms() == family(num_perm as nat, seed),
        r.slots() == updated_slots(fresh_slots(num_perm as nat), family(num_perm as nat, seed), record_tokens(contents@)),
{
    let lower = lowercase(contents);
    let mut minhasher = RMinHash::new(num_perm, seed);
    minhasher.update(split_spaces(lower.as_str()));
    minhasher
}

/// The shared index and the count of records accepted so far.
pub struct Deduplicator {
    index: RMinHashLSH,
    accepted: usize,
}

impl Deduplicator {
    pub closed spec fn index(&self) -> RMinHashLSH {
        self.index
    }

    pub closed spec fn accepted(&self) -> nat {
        self.accepted as nat
    }

    /// The index is well formed and holds exactly the keys `0 .. accepted`.
    pub open spec fn wf(&self) -> bool {
        &&& self.index().wf()
        &&& stored_keys(self.index().tables()) == Set::new(|k: usize| k < self.accepted())
    }

    /// No record accepted yet, over an empty index of the given shape.
    pub fn new(num_perm: usize, num_bands: usize) -> (r: Self)
        requires
            num_bands > 0,
        ensures
            r.wf(),
            r.accepted() == 0,
            r.index().num_perm() == num_perm,
            r.index().num_bands() == num_bands,
            forall|i: int| 0 <= i < num_bands ==> #[trigger] r.index().tables()[i] == Map::<u64, Seq<usize>>::empty(),
    {
        let index = RMinHashLSH::new(num_perm, num_bands);
        let r = Deduplicator { index, accepted: 0 };
        assert(stored_keys(r.index.tables()) =~= Set::new(|k: usize| k < 0nat)) by {
            assert forall|k: usize| !stored_keys(r.index.tables()).contains(k) by {
                if stored_keys(r.index.tables()).contains(k) {
                    let (i, h) = choose|i: int, h: u64|
                        0 <= i < r.index.tables().len() && r.index.tables()[i].contains_key(h)
                            && #[trigger] r.index.tables()[i][h].contains(k);
                    assert(r.index.tables()[i] == Map::<u64, Seq<usize>>::empty());
                }
            }
        }
        r
    }

    /// Accepts `minhash` under the next key where no band of it collides with an
    /// accepted record, and returns that key; otherwise rejects it and changes
    /// nothing.
    pub fn offer(&mut self, minhash: &RMinHash) -> (r: Option<usize>)
        requires
            old(self).wf(),
            old(self).index().num_bands() * old(self).index().band_size() <= minhash.slots().len(),
            old(self).accepted() < usize::MAX,
        ensures
            final(self).wf(),
            final(self).index().num_perm() == old(self).index().num_perm(),
            final(self).index().num_bands() == old(self).index().num_bands(),
            final(self).index().band_size() == old(self).index().band_size(),
            r is None <==> any_hit(old(self).index().tables(), minhash.slots(), old(self).index().band_size()),
            match r {
                Some(k) => {
                    &&& k == old(self).accepted()
                    &&& final(self).accepted() == old(self).accepted() + 1
                    &&& final(self).index().tables() == inserted(
                        old(self).index().tables(),
                        k,
                        minhash.slots(),
                        old(self).index().band_size(),
                    )
                },
                None => {
                    &&& final(self).accepted() == old(self).accepted()
                    &&& final(self).index().tables() == old(self).index().tables()
                },
            },
    {
        let found = self.index.any_matches(minhash).is_some();
        if found {
            None
        } else {
            let key = self.accepted;
            proof {
                crate::lsh::lemma_inserted_stored_keys(
                    self.index.tables(),
                    key,
                    minhash.slots(),
                    self.index.band_size(),
                );
                assert(Set::new(|k: usize| k < self.accepted()).insert(key) =~= Set::new(
                    |k: usize| k < self.accepted() + 1,
                ));
            }
            self.index.insert(key, minhash);
            self.accepted = self.accepted + 1;
            Some(key)
        }
    }

    /// The number of records accepted so far.
    pub fn accepted_count(&self) -> (r: usize)
        ensures
            r == self.accepted(),
    {
        self.accepted
    }
}

} // verus!
