//! The bounded least-recently-used map from directory path to snapshot, kept in an
//! `lru::LruCache`, and what its operations do to its contents.
use lru::LruCache;
use std::collections::hash_map::RandomState;
use vstd::prelude::*;

use crate::message_holder::file_helper::FileGroupHolder;

verus! {

#[verifier::external_type_specification]
#[verifier::external_body]
#[verifier::reject_recursive_types(K)]
#[verifier::reject_recursive_types(V)]
#[verifier::reject_recursive_types(S)]
pub struct ExLruCache<K, V, S>(LruCache<K, V, S>);

/// The cache of directory snapshots, keyed by path.
pub type DirectoryCache = LruCache<String, FileGroupHolder, RandomState>;

/// What a cache holds: its (path, snapshot) pairs, the most recently used first.
pub uninterp spec fn cache_entries(c: DirectoryCache) -> Seq<(Seq<char>, FileGroupHolder)>;

/// The capacity a cache was made with.
pub uninterp spec fn cache_capacity(c: DirectoryCache) -> nat;

/// The paths of a cache's pairs, in order.
pub open spec fn keys_of(e: Seq<(Seq<char>, FileGroupHolder)>) -> Seq<Seq<char>> {
    e.map_values(|p: (Seq<char>, FileGroupHolder)| p.0)
}

/// No path stands twice.
pub open spec fn unique_keys(e: Seq<(Seq<char>, FileGroupHolder)>) -> bool {
    forall|i: int, j: int| 0 <= i < j < e.len() ==> e[i].0 != e[j].0
}

/// Whether `k` is one of the paths.
pub open spec fn has_key(e: Seq<(Seq<char>, FileGroupHolder)>, k: Seq<char>) -> bool {
    exists|i: int| 0 <= i < e.len() && e[i].0 == k
}

/// The position of path `k`, or -1.
pub open spec fn key_index(e: Seq<(Seq<char>, FileGroupHolder)>, k: Seq<char>) -> int
    decreases e.len(),
{
    if e.len() == 0 {
        -1
    } else if e.last().0 == k {
        e.len() - 1
    } else {
        key_index(e.drop_last(), k)
    }
}

/// The pairs after `k` is used: its pair moved to the front.
pub open spec fn promoted(e: Seq<(Seq<char>, FileGroupHolder)>, k: Seq<char>) -> Seq<(Seq<char>, FileGroupHolder)> {
    let i = key_index(e, k);
    if i < 0 {
        e
    } else {
        seq![e[i]] + e.remove(i)
    }
}

/// The pairs after `k` is removed.
pub open spec fn without_key(e: Seq<(Seq<char>, FileGroupHolder)>, k: Seq<char>) -> Seq<(Seq<char>, FileGroupHolder)> {
    let i = key_index(e, k);
    if i < 0 {
        e
    } else {
        e.remove(i)
    }
}

/// The pairs after `(k, v)` is put in a cache of capacity `cap`: a pair of the same path is
/// replaced; otherwise, when full, the least recently used pair leaves. The new pair is first.
pub open spec fn put_spec(
    e: Seq<(Seq<char>, FileGroupHolder)>,
    cap: nat,
    k: Seq<char>,
    v: FileGroupHolder,
) -> Seq<(Seq<char>, FileGroupHolder)> {
    let i = key_index(e, k);
    if i >= 0 {
        seq![(k, v)] + e.remove(i)
    } else if e.len() >= cap {
        seq![(k, v)] + e.drop_last()
    } else {
        seq![(k, v)] + e
    }
}

/// A path's position holds that path; a path without a position stands nowhere.
pub proof fn lemma_key_index(e: Seq<(Seq<char>, FileGroupHolder)>, k: Seq<char>)
    ensures
        key_index(e, k) >= 0 ==> key_index(e, k) < e.len() && e[key_index(e, k)].0 == k,
        key_index(e, k) < 0 ==> key_index(e, k) == -1 && !has_key(e, k),
        unique_keys(e) ==> forall|i: int| 0 <= i < e.len() && e[i].0 == k ==> key_index(e, k) == i,
    decreases e.len(),
{
    if e.len() > 0 {
        lemma_key_index(e.drop_last(), k);
        if e.last().0 != k {
            assert forall|i: int| 0 <= i < e.len() && e[i].0 == k implies i < e.len() - 1 && e.drop_last()[i].0 == k by {}
            if key_index(e, k) < 0 {
                assert forall|i: int| 0 <= i < e.len() implies e[i].0 != k by {
                    if i < e.len() - 1 {
                        assert(e.drop_last()[i] == e[i]);
                    }
                }
            }
        }
    }
}

/// Putting, using and removing keep the paths unique and within the capacity.
pub proof fn lemma_ops_keep_unique(e: Seq<(Seq<char>, FileGroupHolder)>, cap: nat, k: Seq<char>, v: FileGroupHolder)
    requires
        unique_keys(e),
        e.len() <= cap,
        cap > 0,
    ensures
        unique_keys(put_spec(e, cap, k, v)),
        put_spec(e, cap, k, v).len() <= cap,
        unique_keys(promoted(e, k)),
        promoted(e, k).len() == e.len(),
        unique_keys(without_key(e, k)),
        without_key(e, k).len() <= e.len(),
{
    lemma_key_index(e, k);
    let i = key_index(e, k);
    if i >= 0 {
        let r = e.remove(i);
        assert(unique_keys(r)) by {
            assert forall|a: int, b: int| 0 <= a < b < r.len() implies r[a].0 != r[b].0 by {
                let a2 = if a < i { a } else { a + 1 };
                let b2 = if b < i { b } else { b + 1 };
                assert(r[a] == e[a2]);
                assert(r[b] == e[b2]);
            }
        }
        assert forall|j: int| 0 <= j < r.len() implies r[j].0 != k by {
            let j2 = if j < i { j } else { j + 1 };
            assert(r[j] == e[j2]);
        }
        let p = seq![(k, v)] + r;
        assert forall|a: int, b: int| 0 <= a < b < p.len() implies p[a].0 != p[b].0 by {
            if a > 0 {
                assert(p[a] == r[a - 1]);
            }
            assert(p[b] == r[b - 1]);
        }
        let q = seq![e[i]] + r;
        assert forall|a: int, b: int| 0 <= a < b < q.len() implies q[a].0 != q[b].0 by {
            if a > 0 {
                assert(q[a] == r[a - 1]);
            }
            assert(q[b] == r[b - 1]);
        }
    } else {
        let r = if e.len() >= cap { e.drop_last() } else { e };
        assert forall|j: int| 0 <= j < r.len() implies r[j].0 != k && r[j] == e[j] by {}
        let p = seq![(k, v)] + r;
        assert forall|a: int, b: int| 0 <= a < b < p.len() implies p[a].0 != p[b].0 by {
            if a > 0 {
                assert(p[a] == r[a - 1]);
            }
            assert(p[b] == r[b - 1]);
        }
    }
}

/// Each pair after putting, using or removing is the pair put or one that was there before.
pub proof fn lemma_ops_elements(e: Seq<(Seq<char>, FileGroupHolder)>, cap: nat, k: Seq<char>, v: FileGroupHolder)
    requires
        cap > 0,
    ensures
        forall|j: int|
            0 <= j < put_spec(e, cap, k, v).len() ==> #[trigger] put_spec(e, cap, k, v)[j] == (k, v)
                || e.contains(put_spec(e, cap, k, v)[j]),
        forall|j: int| 0 <= j < promoted(e, k).len() ==> e.contains(#[trigger] promoted(e, k)[j]),
        forall|j: int| 0 <= j < without_key(e, k).len() ==> e.contains(#[trigger] without_key(e, k)[j]),
{
    lemma_key_index(e, k);
    let i = key_index(e, k);
    assert forall|j: int| 0 <= j < put_spec(e, cap, k, v).len() implies #[trigger] put_spec(e, cap, k, v)[j] == (k, v)
        || e.contains(put_spec(e, cap, k, v)[j]) by {
        let r = put_spec(e, cap, k, v);
        if j > 0 {
            if i >= 0 {
                assert(r == seq![(k, v)] + e.remove(i));
                let j2 = if j - 1 < i { j - 1 } else { j };
                assert(r[j] == e[j2]);
            } else if e.len() >= cap {
                assert(r == seq![(k, v)] + e.drop_last());
                assert(r[j] == e.drop_last()[j - 1]);
                assert(r[j] == e[j - 1]);
            } else {
                assert(r == seq![(k, v)] + e);
                assert(r[j] == e[j - 1]);
            }
        }
    }
    assert forall|j: int| 0 <= j < promoted(e, k).len() implies e.contains(#[trigger] promoted(e, k)[j]) by {
        let r = promoted(e, k);
        if i >= 0 {
            if j == 0 {
                assert(r[j] == e[i]);
            } else {
                let j2 = if j - 1 < i { j - 1 } else { j };
                assert(r[j] == e[j2]);
            }
        } else {
            assert(r[j] == e[j]);
        }
    }
    assert forall|j: int| 0 <= j < without_key(e, k).len() implies e.contains(#[trigger] without_key(e, k)[j]) by {
        let r = without_key(e, k);
        if i >= 0 {
            let j2 = if j < i { j } else { j + 1 };
            assert(r[j] == e[j2]);
        } else {
            assert(r[j] == e[j]);
        }
    }
}

/// Relies on lru::LruCache::with_hasher: an empty cache that holds at most `cap` pairs.
#[verifier::external_body]
pub(crate) fn cache_new(cap: usize) -> (r: DirectoryCache)
    requires
        cap > 0,
    ensures
        cache_entries(r) == Seq::<(Seq<char>, FileGroupHolder)>::empty(),
        cache_capacity(r) == cap,
{
    LruCache::with_hasher(std::num::NonZeroUsize::new(cap).unwrap(), RandomState::new())
}

/// Relies on lru::LruCache::put: replaces the pair of the same key, or evicts the least
/// recently used pair when full, and puts the new pair first.
#[verifier::external_body]
pub(crate) fn cache_put(c: &mut DirectoryCache, k: String, v: FileGroupHolder)
    ensures
        cache_entries(*final(c)) == put_spec(cache_entries(*old(c)), cache_capacity(*old(c)), k@, v),
        cache_capacity(*final(c)) == cache_capacity(*old(c)),
{
    c.put(k, v);
}

/// Relies on lru::LruCache::get, for its effect alone: the pair of `k`, if any, moves first.
#[verifier::external_body]
pub(crate) fn cache_promote(c: &mut DirectoryCache, k: &str) -> (r: bool)
    ensures
        r == (key_index(cache_entries(*old(c)), k@) >= 0),
        cache_entries(*final(c)) == promoted(cache_entries(*old(c)), k@),
        cache_capacity(*final(c)) == cache_capacity(*old(c)),
{
    c.get(k).is_some()
}

/// Relies on lru::LruCache::peek: the snapshot of `k` without changing the order.
#[verifier::external_body]
pub(crate) fn cache_peek<'a>(c: &'a DirectoryCache, k: &str) -> (r: Option<&'a FileGroupHolder>)
    ensures
        ({
            let i = key_index(cache_entries(*c), k@);
            match r {
                Some(v) => i >= 0 && *v == cache_entries(*c)[i].1,
                None => i < 0,
            }
        }),
{
    c.peek(k)
}

/// Relies on lru::LruCache::contains: whether `k` has a pair, without changing the order.
#[verifier::external_body]
pub(crate) fn cache_contains(c: &DirectoryCache, k: &str) -> (r: bool)
    ensures
        r == (key_index(cache_entries(*c), k@) >= 0),
{
    c.contains(k)
}

/// Relies on lru::LruCache::pop: removes the pair of `k` and hands back its snapshot.
#[verifier::external_body]
pub(crate) fn cache_pop(c: &mut DirectoryCache, k: &str) -> (r: Option<FileGroupHolder>)
    ensures
        ({
            let i = key_index(cache_entries(*old(c)), k@);
            match r {
                Some(v) => i >= 0 && v == cache_entries(*old(c))[i].1,
                None => i < 0,
            }
        }),
        cache_entries(*final(c)) == without_key(cache_entries(*old(c)), k@),
        cache_capacity(*final(c)) == cache_capacity(*old(c)),
{
    c.pop(k)
}

/// Relies on lru::LruCache::iter, which visits the pairs most recently used first: their keys.
#[verifier::external_body]
pub(crate) fn cache_keys(c: &DirectoryCache) -> (r: Vec<String>)
    ensures
        r@.map_values(|s: String| s@) == keys_of(cache_entries(*c)),
{
    c.iter().map(|(k, _)| k.clone()).collect()
}

} // verus!
