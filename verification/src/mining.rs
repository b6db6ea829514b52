//! Negative miners: which entries of a candidate pool serve as negatives for
//! an anchor.
use rand::rngs::ThreadRng;
use rand::seq::SliceRandom;
use vstd::prelude::*;

use crate::indices::{
    contains_index, lemma_select_members, lemma_select_step, select, strictly_increasing,
};

verus! {

/// Pool entry `i` is not named by `exclude`.
pub open spec fn not_excluded(exclude: Seq<usize>) -> spec_fn(usize) -> bool {
    |i: usize| !exclude.contains(i)
}

/// The pool indices that `exclude` does not name, in increasing order.
pub open spec fn candidates(pool_len: nat, exclude: Seq<usize>) -> Seq<usize> {
    select(pool_len, not_excluded(exclude))
}

/// The candidates of a pool are exactly its indices that `exclude` does not
/// name, each once, in increasing order.
pub proof fn law_candidates_members(pool_len: nat, exclude: Seq<usize>)
    requires
        pool_len <= usize::MAX,
    ensures
        forall|x: usize| #[trigger] candidates(pool_len, exclude).contains(x) <==> (x < pool_len
            && !exclude.contains(x)),
        strictly_increasing(candidates(pool_len, exclude)),
{
    lemma_select_members(pool_len, not_excluded(exclude));
}

/// Uses all non-excluded items in the pool as negatives.
#[derive(Debug, Clone, Copy)]
pub struct InBatchMiner;

impl InBatchMiner {
    /// Returns every index into `pool` that `exclude` does not name, in
    /// increasing order.
    pub fn mine<T>(&self, anchor: &[T], pool: &[&[T]], exclude: &[usize]) -> (mined: Vec<usize>)
        ensures
            mined@ == candidates(pool@.len(), exclude@),
            forall|x: usize| #[trigger] mined@.contains(x) <==> (x < pool@.len()
                && !exclude@.contains(x)),
            forall|p: int, q: int| 0 <= p < q < mined@.len() ==> #[trigger] mined@[p]
                < #[trigger] mined@[q],
    {
        let n = pool.len();
        let mut mined: Vec<usize> = Vec::new();
        let mut i: usize = 0;
        while i < n
            invariant
                i <= n,
                n == pool@.len(),
                mined@ == candidates(i as nat, exclude@),
            decreases n - i,
        {
            proof {
                lemma_select_step(i as nat, not_excluded(exclude@));
            }
            if !contains_index(exclude, i) {
                mined.push(i);
            }
            i = i + 1;
        }
        proof {
            law_candidates_members(n as nat, exclude@);
        }
        mined
    }
}

/// A reordering keeps the length, the members and the absence of repeats.
proof fn lemma_reorder_keeps(s: Seq<usize>, t: Seq<usize>)
    requires
        s.to_multiset() == t.to_multiset(),
        s.no_duplicates(),
    ensures
        t.len() == s.len(),
        forall|x: usize| t.contains(x) <==> s.contains(x),
        t.no_duplicates(),
{
    s.to_multiset_ensures();
    t.to_multiset_ensures();
    s.lemma_multiset_has_no_duplicates();
    t.lemma_multiset_has_no_duplicates_conv();
    assert forall|x: usize| t.contains(x) <==> s.contains(x) by {
        assert(t.to_multiset().count(x) == s.to_multiset().count(x));
        assert(t.contains(x) <==> t.to_multiset().count(x) > 0);
        assert(s.contains(x) <==> s.to_multiset().count(x) > 0);
    }
}

/// The thread-local generator of `rand`.
#[verifier::external_type_specification]
#[verifier::external_body]
pub struct ExThreadRng(ThreadRng);

/// Calls `rand::rng()`, which hands out the thread-local generator, seeding it
/// from the operating system on first use in a thread (it panics only when the
/// operating system supplies no randomness). Nothing is claimed of the
/// generator it returns.
#[verifier::external_body]
fn thread_rng() -> ThreadRng {
    rand::rng()
}

/// Calls `SliceRandom::shuffle` of `rand` on the vector's elements. The claim
/// is that the shuffle only reorders them (it is a run of swaps); which order
/// comes out depends on the generator and is left open.
#[verifier::external_body]
fn shuffle_indices(v: &mut Vec<usize>, rng: &mut ThreadRng)
    ensures
        final(v)@.to_multiset() == old(v)@.to_multiset(),
{
    v.as_mut_slice().shuffle(rng)
}

/// Selects `k` random non-excluded negatives.
#[derive(Debug, Clone, Copy)]
pub struct RandomMiner {
    /// Number of negatives to sample.
    pub k: usize,
}

impl RandomMiner {
    /// Returns `min(k, c)` distinct indices drawn at random from the `c`
    /// indices into `pool` that `exclude` does not name.
    pub fn mine<T>(&self, anchor: &[T], pool: &[&[T]], exclude: &[usize]) -> (mined: Vec<usize>)
        ensures
            mined@.len() == if self.k < candidates(pool@.len(), exclude@).len() {
                self.k as nat
            } else {
                candidates(pool@.len(), exclude@).len()
            },
            forall|x: usize| #[trigger] mined@.contains(x) ==> x < pool@.len() && !exclude@.contains(x),
            mined@.no_duplicates(),
            mined@.len() <= self.k,
            forall|x: usize|
                x < pool@.len() && !exclude@.contains(x) && mined@.len() < self.k
                    ==> #[trigger] mined@.contains(x),
    {
        let n = pool.len();
        let mut picked = InBatchMiner.mine(anchor, pool, exclude);
        let ghost all = picked@;
        proof {
            lemma_select_members(n as nat, not_excluded(exclude@));
        }
        let mut rng = thread_rng();
        shuffle_indices(&mut picked, &mut rng);
        proof {
            lemma_reorder_keeps(all, picked@);
        }
        let ghost shuffled = picked@;
        picked.truncate(self.k);
        proof {
            assert forall|x: usize| #[trigger] picked@.contains(x) implies shuffled.contains(x) by {
                let j = choose|j: int| 0 <= j < picked@.len() && picked@[j] == x;
                assert(shuffled[j] == x);
            }
            assert forall|x: usize|
                x < pool@.len() && !exclude@.contains(x) && picked@.len() < self.k
                    implies #[trigger] picked@.contains(x) by {
                assert(picked@ == shuffled);
                assert(all.contains(x));
            }
        }
        picked
    }
}

/// Whether pool entry `i` may be picked by the hardest miner: it has a key,
/// `exclude` does not name it, and its key is above zero.
pub open spec fn eligible(keys: Seq<u32>, exclude: Seq<usize>, i: int) -> bool {
    &&& 0 <= i < keys.len()
    &&& !exclude.contains(i as usize)
    &&& keys[i] > 0
}

/// Entry `b` is the hardest negative: eligible, no eligible entry has a larger
/// key, and every eligible entry before it has a smaller one.
pub open spec fn is_hardest(keys: Seq<u32>, exclude: Seq<usize>, b: int) -> bool {
    &&& eligible(keys, exclude, b)
    &&& forall|i: int| #[trigger] eligible(keys, exclude, i) ==> keys[i] <= keys[b]
    &&& forall|i: int| 0 <= i < b && #[trigger] eligible(keys, exclude, i) ==> keys[i] < keys[b]
}

/// Selects the single hardest (most similar) non-excluded negative.
#[derive(Debug, Clone, Copy)]
pub struct HardestMiner;

impl HardestMiner {
    /// Picks the pool entry most similar to the anchor among those that
    /// `exclude` does not name; the first such entry on a tie.
    ///
    /// `keys[i]` ranks pool entry `i` by its similarity to the anchor: a
    /// larger key for a more similar entry, equal keys for equal similarities,
    /// and key 0 for an entry that can never be picked (its similarity is not
    /// a number or is negative infinity). The result holds one index, or none
    /// when no entry is eligible.
    pub fn mine(&self, keys: &[u32], exclude: &[usize]) -> (mined: Vec<usize>)
        ensures
            mined@.len() <= 1,
            mined@.len() == 0 <==> forall|i: int| !eligible(keys@, exclude@, i),
            mined@.len() == 1 ==> is_hardest(keys@, exclude@, mined@[0] as int),
            forall|i: int|
                0 <= i < keys@.len() && !exclude@.contains(i as usize) && #[trigger] keys@[i] > 0
                    ==> mined@.len() == 1 && keys@[i] <= keys@[mined@[0] as int],
            mined@.len() == 1 ==> {
                &&& mined@[0] < keys@.len()
                &&& !exclude@.contains(mined@[0])
                &&& keys@[mined@[0] as int] > 0
                &&& forall|i: int|
                    0 <= i < mined@[0] && !exclude@.contains(i as usize) && #[trigger] keys@[i] > 0
                        ==> keys@[i] < keys@[mined@[0] as int]
            },
    {
        let n = keys.len();
        let mut best: Option<usize> = None;
        let mut best_key: u32 = 0;
        let mut i: usize = 0;
        while i < n
            invariant
                i <= n,
                n == keys@.len(),
                best is None ==> best_key == 0,
                best is None ==> forall|j: int| 0 <= j < i ==> !eligible(keys@, exclude@, j),
                best matches Some(b) ==> {
                    &&& b < i
                    &&& best_key == keys@[b as int]
                    &&& eligible(keys@, exclude@, b as int)
                    &&& forall|j: int| 0 <= j < i && #[trigger] eligible(keys@, exclude@, j)
                        ==> keys@[j] <= keys@[b as int]
                    &&& forall|j: int| 0 <= j < b && #[trigger] eligible(keys@, exclude@, j)
                        ==> keys@[j] < keys@[b as int]
                },
            decreases n - i,
        {
            if !contains_index(exclude, i) && keys[i] > best_key {
                best = Some(i);
                best_key = keys[i];
            }
            i = i + 1;
        }
        let mut mined: Vec<usize> = Vec::new();
        if let Some(b) = best {
            mined.push(b);
            proof {
                law_hardest_dominates(keys@, exclude@, b as int);
            }
        } else {
            proof {
                assert forall|i: int|
                    0 <= i < keys@.len() && !exclude@.contains(i as usize) && #[trigger] keys@[i]
                        > 0 implies false by {
                    assert(eligible(keys@, exclude@, i));
                }
            }
        }
        mined
    }
}

/// The hardest negative beats every pool entry it may be compared with: its
/// key is at least that of every in-range, non-excluded entry with a key
/// above zero, wherever that entry stands, and strictly above that of each
/// such entry before it; and it is itself such an entry.
pub proof fn law_hardest_dominates(keys: Seq<u32>, exclude: Seq<usize>, b: int)
    requires
        is_hardest(keys, exclude, b),
    ensures
        0 <= b < keys.len(),
        !exclude.contains(b as usize),
        keys[b] > 0,
        forall|i: int|
            0 <= i < keys.len() && !exclude.contains(i as usize) && #[trigger] keys[i] > 0
                ==> keys[i] <= keys[b],
        forall|i: int|
            0 <= i < b && !exclude.contains(i as usize) && #[trigger] keys[i] > 0 ==> keys[i]
                < keys[b],
{
    assert forall|i: int|
        0 <= i < keys.len() && !exclude.contains(i as usize) && #[trigger] keys[i] > 0
            implies keys[i] <= keys[b] by {
        assert(eligible(keys, exclude, i));
    }
    assert forall|i: int|
        0 <= i < b && !exclude.contains(i as usize) && #[trigger] keys[i] > 0 implies keys[i]
            < keys[b] by {
        assert(eligible(keys, exclude, i));
    }
}

/// When the hardest miner finds nothing, no pool entry could be picked: every
/// in-range entry is excluded or has key zero.
pub proof fn law_nothing_eligible(keys: Seq<u32>, exclude: Seq<usize>)
    requires
        forall|i: int| !eligible(keys, exclude, i),
    ensures
        forall|i: int| 0 <= i < keys.len() && !exclude.contains(i as usize) ==> #[trigger] keys[i]
            == 0,
{
    assert forall|i: int| 0 <= i < keys.len() && !exclude.contains(i as usize) implies #[trigger] keys[i]
        == 0 by {
        assert(!eligible(keys, exclude, i));
    }
}

/// The hardest negative is one of the in-batch candidates: an index into
/// the pool that `exclude` does not name.
pub proof fn law_hardest_is_candidate(keys: Seq<u32>, exclude: Seq<usize>, b: int)
    requires
        keys.len() <= usize::MAX,
        is_hardest(keys, exclude, b),
    ensures
        candidates(keys.len(), exclude).contains(b as usize),
{
    law_candidates_members(keys.len(), exclude);
}

} // verus!
