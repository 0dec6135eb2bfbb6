//! The clusters that a classifier remembers, in the order of their last use.
use crate::cluster::LogCluster;
use lru::LruCache;
use std::num::NonZeroUsize;
use vstd::prelude::*;

verus! {

/// The cache of the `lru` crate.
#[verifier::external_type_specification]
#[verifier::external_body]
#[verifier::reject_recursive_types(K)]
#[verifier::reject_recursive_types(V)]
#[verifier::reject_recursive_types(S)]
pub struct ExLruCache<K, V, S>(LruCache<K, V, S>);

/// What the cache hashes its keys with.
#[verifier::external_type_specification]
#[verifier::external_body]
pub struct ExDefaultHasher(lru::DefaultHasher);

/// A capacity up to which a cache can lay out its table: seven eighths of the buckets are used,
/// their number is a power of two, and the table takes up less than half of the memory that can be
/// addressed. It is the greatest one where a word has 64 bits, and half of the greatest one where
/// it has 32.
pub const MAX_CAPACITY: usize = (usize::MAX / 512 + 1) * 7;

/// The entries of a cache, from the one used last to the one used longest ago.
pub uninterp spec fn cache_entries(cache: LruCache<usize, LogCluster>) -> Seq<(usize, LogCluster)>;

/// How many entries a cache holds at most.
pub uninterp spec fn cache_capacity(cache: LruCache<usize, LogCluster>) -> nat;

/// The keys of a list of entries.
pub open spec fn keys<V>(entries: Seq<(usize, V)>) -> Seq<usize> {
    entries.map_values(|e: (usize, V)| e.0)
}

/// Whether a list of entries has a key.
pub open spec fn holds_key<V>(entries: Seq<(usize, V)>, key: usize) -> bool {
    keys(entries).contains(key)
}

/// The value that a list of entries has for a key.
pub open spec fn value_of<V>(entries: Seq<(usize, V)>, key: usize) -> V {
    entries[keys(entries).index_of(key)].1
}

/// The entries once a key has been used: its entry comes first, and the others keep their order.
pub open spec fn promoted<V>(entries: Seq<(usize, V)>, key: usize) -> Seq<(usize, V)> {
    if holds_key(entries, key) {
        let i = keys(entries).index_of(key);
        seq![entries[i]] + entries.remove(i)
    } else {
        entries
    }
}

/// The entries with a new one first. Where there were as many as the capacity, the last one has
/// left.
pub open spec fn inserted<V>(entries: Seq<(usize, V)>, key: usize, value: V, capacity: nat) -> Seq<
    (usize, V),
> {
    seq![(key, value)] + if entries.len() == capacity {
        entries.drop_last()
    } else {
        entries
    }
}

/// The entries with models in place of clusters.
pub open spec fn entry_views(entries: Seq<(usize, LogCluster)>) -> Seq<
    (usize, crate::cluster::ClusterView),
> {
    entries.map_values(|e: (usize, LogCluster)| (e.0, e.1@))
}

/// `LruCache::new` makes an empty cache with the given capacity. It reserves the table for that
/// many entries, which panics where the table cannot be laid out. That the allocator has the
/// memory for the table is not stated.
#[verifier::external_body]
pub(crate) fn new_cache(capacity: usize) -> (r: LruCache<usize, LogCluster>)
    requires
        0 < capacity <= MAX_CAPACITY,
    ensures
        cache_entries(r) == Seq::<(usize, LogCluster)>::empty(),
        cache_capacity(r) == capacity,
{
    LruCache::new(NonZeroUsize::new(capacity).unwrap())
}

/// `LruCache::contains` says whether there is an entry for the key, and leaves the order as it is.
#[verifier::external_body]
pub(crate) fn contains(cache: &LruCache<usize, LogCluster>, key: usize) -> (r: bool)
    ensures
        r == holds_key(cache_entries(*cache), key),
{
    cache.contains(&key)
}

/// `LruCache::peek` gives the value of the key, and leaves the order as it is.
#[verifier::external_body]
pub(crate) fn peek(cache: &LruCache<usize, LogCluster>, key: usize) -> (r: Option<&LogCluster>)
    ensures
        r is Some <==> holds_key(cache_entries(*cache), key),
        r matches Some(v) ==> *v == value_of(cache_entries(*cache), key),
{
    cache.peek(&key)
}

/// `LruCache::get` gives the value of the key, whose entry comes first from then on.
#[verifier::external_body]
pub(crate) fn get(cache: &mut LruCache<usize, LogCluster>, key: usize) -> (r: Option<&LogCluster>)
    ensures
        cache_capacity(*final(cache)) == cache_capacity(*old(cache)),
        cache_entries(*final(cache)) == promoted(cache_entries(*old(cache)), key),
        r is Some <==> holds_key(cache_entries(*old(cache)), key),
        r matches Some(v) ==> *v == value_of(cache_entries(*old(cache)), key),
{
    cache.get(&key)
}

/// `LruCache::get_mut` gives the value of the key to be changed in place. Its entry comes first
/// from then on.
#[verifier::external_body]
pub(crate) fn get_mut(cache: &mut LruCache<usize, LogCluster>, key: usize) -> (r: Option<
    &mut LogCluster,
>)
    ensures
        cache_capacity(*final(cache)) == cache_capacity(*old(cache)),
        match r {
            Some(v) => {
                &&& holds_key(cache_entries(*old(cache)), key)
                &&& *v == value_of(cache_entries(*old(cache)), key)
                &&& cache_entries(*final(cache)) == promoted(cache_entries(*old(cache)), key).update(
                    0,
                    (key, *final(v)),
                )
            },
            None => {
                &&& !holds_key(cache_entries(*old(cache)), key)
                &&& cache_entries(*final(cache)) == cache_entries(*old(cache))
            },
        },
{
    cache.get_mut(&key)
}

/// `LruCache::get_or_insert` gives the value of the key, and first inserts the one at hand where
/// there is none; a full cache loses the entry that was used longest ago. The key's entry comes
/// first from then on.
#[verifier::external_body]
pub(crate) fn get_or_insert(
    cache: &mut LruCache<usize, LogCluster>,
    key: usize,
    value: LogCluster,
) -> (r: &LogCluster)
    ensures
        cache_capacity(*final(cache)) == cache_capacity(*old(cache)),
        if holds_key(cache_entries(*old(cache)), key) {
            &&& *r == value_of(cache_entries(*old(cache)), key)
            &&& cache_entries(*final(cache)) == promoted(cache_entries(*old(cache)), key)
        } else {
            &&& *r == value
            &&& cache_entries(*final(cache)) == inserted(
                cache_entries(*old(cache)),
                key,
                value,
                cache_capacity(*old(cache)),
            )
        },
{
    cache.get_or_insert(key, || value)
}

/// Where keys are distinct, the entry of a key is the one at its place.
pub(crate) proof fn lemma_value_at<V>(entries: Seq<(usize, V)>, i: int)
    requires
        keys(entries).no_duplicates(),
        0 <= i < entries.len(),
    ensures
        holds_key(entries, entries[i].0),
        keys(entries).index_of(entries[i].0) == i,
        value_of(entries, entries[i].0) == entries[i].1,
{
    assert(keys(entries)[i] == entries[i].0);
}

/// A key that is held has a place.
pub(crate) proof fn lemma_place<V>(entries: Seq<(usize, V)>, key: usize) -> (i: int)
    requires
        holds_key(entries, key),
    ensures
        i == keys(entries).index_of(key),
        0 <= i < entries.len(),
        entries[i].0 == key,
        entries[i].1 == value_of(entries, key),
{
    let i = keys(entries).index_of(key);
    assert(keys(entries)[i] == key);
    i
}

/// The use of a key changes neither which keys there are nor what they stand for.
pub(crate) proof fn lemma_promoted<V>(entries: Seq<(usize, V)>, key: usize)
    requires
        keys(entries).no_duplicates(),
    ensures
        keys(promoted(entries, key)).no_duplicates(),
        promoted(entries, key).len() == entries.len(),
        forall|k: usize| holds_key(promoted(entries, key), k) <==> holds_key(entries, k),
        forall|k: usize| #[trigger]
            holds_key(entries, k) ==> value_of(promoted(entries, key), k) == value_of(entries, k),
        holds_key(entries, key) ==> promoted(entries, key)[0] == (key, value_of(entries, key)),
{
    if holds_key(entries, key) {
        let i = lemma_place(entries, key);
        let after = promoted(entries, key);
        let ks = keys(after);
        assert forall|a: int, b: int| 0 <= a < ks.len() && 0 <= b < ks.len() && a != b implies ks[a]
            != ks[b] by {
            let x = if a == 0 { i } else if a <= i { a - 1 } else { a };
            let y = if b == 0 { i } else if b <= i { b - 1 } else { b };
            assert(ks[a] == keys(entries)[x] && ks[b] == keys(entries)[y]);
        }
        assert forall|k: usize| holds_key(entries, k) implies holds_key(after, k) && value_of(
            after,
            k,
        ) == value_of(entries, k) by {
            let j = lemma_place(entries, k);
            let x = if j == i { 0 } else if j < i { j + 1 } else { j };
            assert(after[x] == entries[j]);
            lemma_value_at(after, x);
        }
        assert forall|k: usize| holds_key(after, k) implies holds_key(entries, k) by {
            let x = lemma_place(after, k);
            let j = if x == 0 { i } else if x <= i { x - 1 } else { x };
            assert(keys(entries)[j] == k);
        }
    }
}

/// A change of the first entry's value touches no other entry.
pub(crate) proof fn lemma_front_changed<V>(entries: Seq<(usize, V)>, value: V)
    requires
        keys(entries).no_duplicates(),
        entries.len() > 0,
    ensures
        ({
            let after = entries.update(0, (entries[0].0, value));
            &&& keys(after) == keys(entries)
            &&& value_of(after, entries[0].0) == value
            &&& forall|k: usize| #[trigger]
                holds_key(entries, k) && k != entries[0].0 ==> value_of(after, k) == value_of(
                    entries,
                    k,
                )
        }),
{
    let after = entries.update(0, (entries[0].0, value));
    assert(keys(after) =~= keys(entries));
    lemma_value_at(after, 0);
    assert forall|k: usize| #[trigger] holds_key(entries, k) && k != entries[0].0 implies value_of(
        after,
        k,
    ) == value_of(entries, k) by {
        let j = lemma_place(entries, k);
        assert(after[j] == entries[j]);
    }
}

/// A new key is added to those that stay.
pub(crate) proof fn lemma_inserted<V>(entries: Seq<(usize, V)>, key: usize, value: V, capacity: nat)
    requires
        keys(entries).no_duplicates(),
        !holds_key(entries, key),
        entries.len() <= capacity,
        0 < capacity,
    ensures
        ({
            let after = inserted(entries, key, value, capacity);
            &&& keys(after).no_duplicates()
            &&& after.len() <= capacity
            &&& holds_key(after, key)
            &&& value_of(after, key) == value
            &&& after[0] == (key, value)
            &&& forall|k: usize| #[trigger]
                holds_key(after, k) && k != key ==> holds_key(entries, k) && value_of(after, k)
                    == value_of(entries, k)
        }),
{
    let after = inserted(entries, key, value, capacity);
    let ks = keys(after);
    assert forall|a: int, b: int| 0 <= a < ks.len() && 0 <= b < ks.len() && a != b implies ks[a]
        != ks[b] by {
        if a > 0 {
            assert(ks[a] == keys(entries)[a - 1]);
        }
        if b > 0 {
            assert(ks[b] == keys(entries)[b - 1]);
        }
    }
    lemma_value_at(after, 0);
    assert forall|k: usize| #[trigger] holds_key(after, k) && k != key implies holds_key(entries, k)
        && value_of(after, k) == value_of(entries, k) by {
        let x = lemma_place(after, k);
        assert(after[x] == entries[x - 1]);
        lemma_value_at(entries, x - 1);
    }
}

/// The models of entries have the keys of the entries, and change with them.
pub(crate) proof fn lemma_entry_views(entries: Seq<(usize, LogCluster)>, key: usize)
    ensures
        keys(entry_views(entries)) == keys(entries),
        holds_key(entries, key) ==> value_of(entry_views(entries), key) == value_of(
            entries,
            key,
        )@,
        entry_views(promoted(entries, key)) == promoted(entry_views(entries), key),
{
    assert(keys(entry_views(entries)) =~= keys(entries));
    if holds_key(entries, key) {
        let i = lemma_place(entries, key);
        assert(entry_views(promoted(entries, key)) =~= promoted(entry_views(entries), key));
    }
}

/// The models of entries with a new one first.
pub(crate) proof fn lemma_views_inserted(
    entries: Seq<(usize, LogCluster)>,
    key: usize,
    value: LogCluster,
    capacity: nat,
)
    requires
        0 < capacity,
    ensures
        entry_views(inserted(entries, key, value, capacity)) == inserted(
            entry_views(entries),
            key,
            value@,
            capacity,
        ),
{
    assert(entry_views(inserted(entries, key, value, capacity)) =~= inserted(
        entry_views(entries),
        key,
        value@,
        capacity,
    ));
}

/// The models of entries with the used one changed.
pub(crate) proof fn lemma_views_front_changed(
    entries: Seq<(usize, LogCluster)>,
    key: usize,
    value: LogCluster,
)
    requires
        holds_key(entries, key),
    ensures
        entry_views(promoted(entries, key).update(0, (key, value))) == promoted(
            entry_views(entries),
            key,
        ).update(0, (key, value@)),
{
    lemma_entry_views(entries, key);
    assert(entry_views(promoted(entries, key).update(0, (key, value))) =~= promoted(
        entry_views(entries),
        key,
    ).update(0, (key, value@)));
}

}
