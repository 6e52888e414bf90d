//! Compute-once serving of derived byte blobs out of an LRU cache.
//!
//! All access goes through one exclusive lock held by the caller for the
//! whole of a request, compute step included; the functions here are the
//! decisions taken under that lock. A request first asks [`serve_cached`]; on
//! a miss the caller computes the blob and hands the outcome to
//! [`store_computed`]. [`resolve`] runs both with a synchronous compute step.

use crate::lrucache::{
    find, inserted, lemma_promoted, lemma_pushed, promoted, pushed, unique_keys, LRUCache,
};
use std::hash::Hash;
use vstd::prelude::*;

verus! {

/// The cache contents `s` after the outcome of computing the blob for `k`
/// was handed in: a blob is stored, a failure leaves everything as it was.
pub open spec fn after_outcome<K, E>(
    s: Seq<(K, Vec<u8>)>,
    k: K,
    outcome: Result<Vec<u8>, E>,
    cap: nat,
) -> Seq<(K, Vec<u8>)> {
    match outcome {
        Ok(b) => inserted(s, k, b, cap),
        Err(_) => s,
    }
}

/// The cache contents after one request for `k`, where `outcome` is what the
/// compute step gives if it is called: a hit promotes, a miss computes.
pub open spec fn resolve_step<K, E>(
    s: Seq<(K, Vec<u8>)>,
    k: K,
    outcome: Result<Vec<u8>, E>,
    cap: nat,
) -> Seq<(K, Vec<u8>)> {
    match find(s, k) {
        Some(p) => promoted(s, p),
        None => after_outcome(s, k, outcome, cap),
    }
}

/// How many of a run of requests for `k`, one after the other, call the
/// compute step; the i-th request, if it has to compute, gets `outcomes[i]`.
pub open spec fn computes<K, E>(
    s: Seq<(K, Vec<u8>)>,
    k: K,
    outcomes: Seq<Result<Vec<u8>, E>>,
    cap: nat,
) -> nat
    decreases outcomes.len(),
{
    if outcomes.len() == 0 {
        0
    } else {
        (if find(s, k) is None {
            1nat
        } else {
            0nat
        }) + computes(resolve_step(s, k, outcomes[0], cap), k, outcomes.drop_first(), cap)
    }
}

/// The cache contents after that run of requests.
pub open spec fn replay<K, E>(
    s: Seq<(K, Vec<u8>)>,
    k: K,
    outcomes: Seq<Result<Vec<u8>, E>>,
    cap: nat,
) -> Seq<(K, Vec<u8>)>
    decreases outcomes.len(),
{
    if outcomes.len() == 0 {
        s
    } else {
        replay(resolve_step(s, k, outcomes[0], cap), k, outcomes.drop_first(), cap)
    }
}

/// Once a key is cached, no request for it computes again: every later
/// request in a run is a hit, and the key keeps the blob it had.
pub proof fn lemma_hits_stay_served<K, E>(
    s: Seq<(K, Vec<u8>)>,
    k: K,
    outcomes: Seq<Result<Vec<u8>, E>>,
    cap: nat,
)
    requires
        unique_keys(s),
        find(s, k) is Some,
    ensures
        computes(s, k, outcomes, cap) == 0,
        find(replay(s, k, outcomes, cap), k) matches Some(q) && replay(s, k, outcomes, cap)[q].1
            == s[find(s, k)->0].1,
    decreases outcomes.len(),
{
    if outcomes.len() > 0 {
        let p = find(s, k)->0;
        let t = resolve_step(s, k, outcomes[0], cap);
        lemma_promoted(s, p);
        assert(s[p].0 == k);
        assert(t[0].1 == s[p].1);
        lemma_hits_stay_served(t, k, outcomes.drop_first(), cap);
    }
}

/// In a run of requests for one key whose computations all succeed, the
/// compute step is called at most once, and not at all if the key was
/// cached, provided the cache has room for an entry.
pub proof fn lemma_at_most_one_compute<K, E>(
    s: Seq<(K, Vec<u8>)>,
    k: K,
    outcomes: Seq<Result<Vec<u8>, E>>,
    cap: nat,
)
    requires
        unique_keys(s),
        s.len() <= cap,
        cap > 0,
        forall|i: int| 0 <= i < outcomes.len() ==> (#[trigger] outcomes[i]) is Ok,
    ensures
        computes(s, k, outcomes, cap) <= 1,
        find(s, k) is Some ==> computes(s, k, outcomes, cap) == 0,
{
    if find(s, k) is Some {
        lemma_hits_stay_served(s, k, outcomes, cap);
    } else if outcomes.len() > 0 {
        let b = outcomes[0]->Ok_0;
        lemma_pushed(s, (k, b), cap);
        let t = resolve_step(s, k, outcomes[0], cap);
        assert(t == pushed(s, (k, b), cap));
        lemma_hits_stay_served(t, k, outcomes.drop_first(), cap);
    }
}

/// A failed computation caches nothing: in a run of requests for an absent
/// key whose computations all fail, every request computes again and the
/// cache is left as it was.
pub proof fn lemma_failures_recompute<K, E>(
    s: Seq<(K, Vec<u8>)>,
    k: K,
    outcomes: Seq<Result<Vec<u8>, E>>,
    cap: nat,
)
    requires
        find(s, k) is None,
        forall|i: int| 0 <= i < outcomes.len() ==> (#[trigger] outcomes[i]) is Err,
    ensures
        computes(s, k, outcomes, cap) == outcomes.len(),
        replay(s, k, outcomes, cap) == s,
    decreases outcomes.len(),
{
    if outcomes.len() > 0 {
        assert(resolve_step(s, k, outcomes[0], cap) == s);
        let rest = outcomes.drop_first();
        assert forall|i: int| 0 <= i < rest.len() implies (#[trigger] rest[i]) is Err by {
            assert(rest[i] == outcomes[i + 1]);
        }
        lemma_failures_recompute(s, k, rest, cap);
    }
}

///
/// Serves `key` from the cache if it is there: the entry is promoted and a
/// copy of its bytes returned. `None` asks the caller to compute the blob.
///
pub fn serve_cached<K: Clone + Hash + Eq>(cache: &mut LRUCache<K, Vec<u8>>, key: &K) -> (r:
    Option<Vec<u8>>)
    requires
        old(cache).wf(),
    ensures
        final(cache).wf(),
        final(cache).cap() == old(cache).cap(),
        match find(old(cache)@, *key) {
            Some(p) => r matches Some(b) && b@ == old(cache)@[p].1@ && final(cache)@ == promoted(
                old(cache)@,
                p,
            ),
            None => r is None && final(cache)@ == old(cache)@,
        },
{
    if cache.contains_key(key) {
        match cache.get(key) {
            Some(v) => {
                let b = v.clone();
                proof {
                    assert(b@ =~= v@);
                }
                Some(b)
            },
            None => None,
        }
    } else {
        None
    }
}

///
/// Hands in the outcome of computing the blob for `key`. A blob is stored
/// under `key`, evicting the least recently used entry if the cache is full,
/// and a copy of it returned; a failure is passed on and nothing is cached.
///
pub fn store_computed<K: Clone + Hash + Eq, E>(
    cache: &mut LRUCache<K, Vec<u8>>,
    key: K,
    outcome: Result<Vec<u8>, E>,
) -> (r: Result<Vec<u8>, E>)
    requires
        old(cache).wf(),
    ensures
        final(cache).wf(),
        final(cache).cap() == old(cache).cap(),
        final(cache)@ == after_outcome(old(cache)@, key, outcome, old(cache).cap()),
        match outcome {
            Ok(b) => r matches Ok(o) && o@ == b@,
            Err(e) => r == Err::<Vec<u8>, E>(e),
        },
{
    match outcome {
        Ok(bytes) => {
            let out = bytes.clone();
            proof {
                assert(out@ =~= bytes@);
            }
            cache.insert(key, bytes);
            Ok(out)
        },
        Err(e) => Err(e),
    }
}

///
/// Returns the blob for `key`: from the cache when it is there, else from
/// `compute`, whose result is cached on success. `compute` is called only on
/// a miss, and a failure leaves the cache unchanged.
///
pub fn resolve<K: Clone + Hash + Eq, E, F: FnOnce() -> Result<Vec<u8>, E>>(
    cache: &mut LRUCache<K, Vec<u8>>,
    key: K,
    compute: F,
) -> (r: Result<Vec<u8>, E>)
    requires
        old(cache).wf(),
        find(old(cache)@, key) is None ==> compute.requires(()),
    ensures
        final(cache).wf(),
        final(cache).cap() == old(cache).cap(),
        match find(old(cache)@, key) {
            Some(p) => r matches Ok(b) && b@ == old(cache)@[p].1@ && final(cache)@ == promoted(
                old(cache)@,
                p,
            ),
            None => exists|out: Result<Vec<u8>, E>|
                {
                    &&& compute.ensures((), out)
                    &&& final(cache)@ == resolve_step(old(cache)@, key, out, old(cache).cap())
                    &&& match out {
                        Ok(b) => r matches Ok(o) && o@ == b@,
                        Err(e) => r == Err::<Vec<u8>, E>(e),
                    }
                },
        },
{
    let ghost start = cache@;
    match serve_cached(cache, &key) {
        Some(b) => Ok(b),
        None => {
            let out = compute();
            let ghost o = out;
            let r = store_computed(cache, key, out);
            proof {
                assert(find(start, key) is None);
                assert(cache@ == resolve_step(start, key, o, cache.cap()));
                assert(compute.ensures((), o));
                assert(match o {
                    Ok(b) => r matches Ok(x) && x@ == b@,
                    Err(e) => r == Err::<Vec<u8>, E>(e),
                });
            }
            r
        },
    }
}

} // verus!
