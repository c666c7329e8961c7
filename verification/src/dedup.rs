//! The cache of message identifiers that a node has already processed.
//!
//! The cache is a least-recently-used set of bounded size, kept by the `lru`
//! crate. Its model is the sequence of the identifiers it holds, the most
//! recently used first.
use vstd::prelude::*;

verus! {

/// The number of identifiers that the cache of a node holds unless told
/// otherwise.
pub const SEEN_CACHE_CAPACITY: usize = 128;

/// The largest capacity that a cache can be made with.
pub const MAX_CACHE_CAPACITY: usize = 65536;

/// `lru::LruCache`: nothing of its inside is known here.
#[verifier::external_type_specification]
#[verifier::external_body]
#[verifier::reject_recursive_types(K)]
#[verifier::reject_recursive_types(V)]
#[verifier::reject_recursive_types(S)]
pub struct ExLruCache<K, V, S>(lru::LruCache<K, V, S>);

/// `lru::DefaultHasher`, the hasher of an `lru::LruCache` that was made
/// without naming one: nothing of its inside is known here.
#[verifier::external_type_specification]
#[verifier::external_body]
pub struct ExDefaultHasher(lru::DefaultHasher);

/// The keys that an `lru::LruCache` holds, the most recently used first.
pub uninterp spec fn cached_ids(cache: lru::LruCache<u128, ()>) -> Seq<u128>;

/// The capacity that an `lru::LruCache` was made with.
pub uninterp spec fn cache_limit(cache: lru::LruCache<u128, ()>) -> nat;

/// What a cache of capacity `limit` that holds `ids` holds after `id` was
/// put into it.
///
/// A known identifier moves to the front. A new one is added at the front;
/// where the cache is full, the identifier at the back, the least recently
/// used one, leaves first. A cache of capacity zero stays empty.
pub open spec fn touch(ids: Seq<u128>, limit: nat, id: u128) -> Seq<u128> {
    if ids.contains(id) {
        seq![id] + ids.remove(ids.index_of(id))
    } else if limit == 0 {
        ids
    } else if ids.len() == limit {
        seq![id] + ids.drop_last()
    } else {
        seq![id] + ids
    }
}

/// What a cache holds after each identifier of `batch` was put into it, in
/// order.
pub open spec fn touch_all(ids: Seq<u128>, limit: nat, batch: Seq<u128>) -> Seq<u128>
    decreases batch.len(),
{
    if batch.len() == 0 {
        ids
    } else {
        touch(touch_all(ids, limit, batch.drop_last()), limit, batch.last())
    }
}

/// The contents that a cache of capacity `limit` can have: no identifier
/// twice, and no more than `limit` of them.
pub open spec fn bounded(ids: Seq<u128>, limit: nat) -> bool {
    &&& 0 < limit
    &&& ids.len() <= limit
    &&& ids.no_duplicates()
}

/// Putting an identifier into a cache keeps its contents within the
/// capacity and free of duplicates, puts the identifier at the front, and
/// keeps every other identifier that was there, but for the one at the back
/// of a full cache.
pub proof fn lemma_touch(ids: Seq<u128>, limit: nat, id: u128)
    requires
        bounded(ids, limit),
    ensures
        bounded(touch(ids, limit, id), limit),
        touch(ids, limit, id).len() > 0,
        touch(ids, limit, id)[0] == id,
        touch(ids, limit, id).contains(id),
        forall|other: u128|
            touch(ids, limit, id).contains(other) ==> other == id || ids.contains(other),
        forall|other: u128|
            ids.contains(other) && !touch(ids, limit, id).contains(other) ==> {
                &&& ids.len() == limit
                &&& !ids.contains(id)
                &&& other == ids.last()
            },
{
    let after = touch(ids, limit, id);
    if ids.contains(id) {
        let k = ids.index_of(id);
        let rest = ids.remove(k);
        assert(rest.len() == ids.len() - 1);
        assert forall|i: int| 0 <= i < rest.len() implies #[trigger] rest[i] != id
            && ids.contains(rest[i]) by {
            if i < k {
                assert(rest[i] == ids[i]);
            } else {
                assert(rest[i] == ids[i + 1]);
            }
        }
        assert forall|i: int, j: int| 0 <= i < rest.len() && 0 <= j < rest.len() && i != j
            implies rest[i] != rest[j] by {
            let a = if i < k { i } else { i + 1 };
            let b = if j < k { j } else { j + 1 };
            assert(rest[i] == ids[a] && rest[j] == ids[b]);
        }
        lemma_front(id, rest);
        assert forall|other: u128| ids.contains(other) implies after.contains(other) by {
            let i = choose|i: int| 0 <= i < ids.len() && ids[i] == other;
            if i == k {
                assert(after[0] == other);
            } else if i < k {
                assert(rest[i] == other);
                assert(after[i + 1] == other);
            } else {
                assert(rest[i - 1] == other);
                assert(after[i] == other);
            }
        }
    } else if ids.len() == limit {
        let rest = ids.drop_last();
        assert forall|i: int| 0 <= i < rest.len() implies #[trigger] rest[i] != id
            && ids.contains(rest[i]) by {
            assert(rest[i] == ids[i]);
        }
        lemma_front(id, rest);
        assert forall|other: u128|
            ids.contains(other) && !after.contains(other) implies other == ids.last() by {
            let i = choose|i: int| 0 <= i < ids.len() && ids[i] == other;
            if i < ids.len() - 1 {
                assert(rest[i] == other);
                assert(after[i + 1] == other);
            }
        }
    } else {
        assert forall|i: int| 0 <= i < ids.len() implies #[trigger] ids[i] != id && ids.contains(
            ids[i],
        ) by {}
        lemma_front(id, ids);
        assert forall|other: u128| ids.contains(other) implies after.contains(other) by {
            let i = choose|i: int| 0 <= i < ids.len() && ids[i] == other;
            assert(after[i + 1] == other);
        }
    }
}

/// An identifier put in front of a duplicate-free sequence that lacks it
/// gives a duplicate-free sequence, whose members are the identifier and the
/// members of the sequence.
proof fn lemma_front(id: u128, rest: Seq<u128>)
    requires
        rest.no_duplicates(),
        forall|i: int| 0 <= i < rest.len() ==> #[trigger] rest[i] != id,
    ensures
        (seq![id] + rest).no_duplicates(),
        (seq![id] + rest).len() == rest.len() + 1,
        (seq![id] + rest)[0] == id,
        (seq![id] + rest).contains(id),
        forall|other: u128|
            (seq![id] + rest).contains(other) ==> other == id || rest.contains(other),
{
    let all = seq![id] + rest;
    assert(all[0] == id);
    assert forall|i: int, j: int| 0 <= i < all.len() && 0 <= j < all.len() && i != j implies all[i]
        != all[j] by {
        if i > 0 {
            assert(all[i] == rest[i - 1]);
        }
        if j > 0 {
            assert(all[j] == rest[j - 1]);
        }
    }
    assert forall|other: u128| all.contains(other) implies other == id || rest.contains(other) by {
        let i = choose|i: int| 0 <= i < all.len() && all[i] == other;
        if i > 0 {
            assert(rest[i - 1] == other);
        }
    }
}

/// After distinct identifiers, no more than the capacity, were put into a
/// cache one by one, they stand at its front, the last one first.
pub proof fn lemma_recent_batch(ids: Seq<u128>, limit: nat, batch: Seq<u128>)
    requires
        bounded(ids, limit),
        batch.no_duplicates(),
        batch.len() <= limit,
    ensures
        bounded(touch_all(ids, limit, batch), limit),
        touch_all(ids, limit, batch).len() >= batch.len(),
        forall|i: int|
            0 <= i < batch.len() ==> #[trigger] touch_all(ids, limit, batch)[i] == batch[batch.len()
                - 1 - i],
    decreases batch.len(),
{
    if batch.len() > 0 {
        let k = batch.len() - 1;
        let head = batch.drop_last();
        let id = batch.last();
        let before = touch_all(ids, limit, head);
        let after = touch(before, limit, id);
        lemma_recent_batch(ids, limit, head);
        lemma_touch(before, limit, id);
        assert(after == touch_all(ids, limit, batch));
        assert forall|i: int| 0 <= i < k implies #[trigger] before[i] != id by {
            assert(before[i] == head[k - 1 - i]);
            assert(head[k - 1 - i] == batch[k - 1 - i]);
        }
        if before.contains(id) {
            let at = before.index_of(id);
            assert(at >= k);
            assert forall|i: int| 0 <= i < batch.len() implies #[trigger] after[i] == batch[k
                - i] by {
                if i > 0 {
                    assert(after[i] == before.remove(at)[i - 1]);
                    assert(before.remove(at)[i - 1] == before[i - 1]);
                    assert(before[i - 1] == head[k - 1 - (i - 1)]);
                }
            }
        } else {
            let kept = if before.len() == limit {
                before.drop_last()
            } else {
                before
            };
            assert(after == seq![id] + kept);
            assert(kept.len() >= k);
            assert forall|i: int| 0 <= i < batch.len() implies #[trigger] after[i] == batch[k
                - i] by {
                if i > 0 {
                    assert(after[i] == kept[i - 1]);
                    assert(kept[i - 1] == before[i - 1]);
                    assert(before[i - 1] == head[k - 1 - (i - 1)]);
                }
            }
        }
    }
}

/// Eviction: after one identifier more than the capacity, all distinct, were
/// put into a cache one by one, the cache holds all of them but the first,
/// the last one at the front. The first one, which was used least recently,
/// is gone, and putting it again finds it new.
pub proof fn lemma_eviction(ids: Seq<u128>, limit: nat, batch: Seq<u128>)
    requires
        bounded(ids, limit),
        batch.no_duplicates(),
        batch.len() == limit + 1,
    ensures
        !touch_all(ids, limit, batch).contains(batch[0]),
        touch_all(ids, limit, batch).len() == limit,
        forall|i: int|
            0 <= i < limit ==> #[trigger] touch_all(ids, limit, batch)[i] == batch[limit - i],
        forall|i: int| 1 <= i <= limit ==> touch_all(ids, limit, batch).contains(#[trigger] batch[i]),
{
    let head = batch.drop_last();
    let id = batch.last();
    let before = touch_all(ids, limit, head);
    let after = touch(before, limit, id);
    lemma_recent_batch(ids, limit, head);
    lemma_touch(before, limit, id);
    assert(after == touch_all(ids, limit, batch));
    assert(before.len() == limit);
    assert forall|i: int| 0 <= i < limit implies #[trigger] before[i] == batch[limit - 1 - i] by {
        assert(before[i] == head[limit - 1 - i]);
    }
    assert(!before.contains(id)) by {
        if before.contains(id) {
            let at = before.index_of(id);
            assert(before[at] == batch[limit - 1 - at]);
        }
    }
    assert(after == seq![id] + before.drop_last());
    assert forall|i: int| 0 <= i < limit implies #[trigger] after[i] == batch[limit - i] by {
        if i > 0 {
            assert(after[i] == before.drop_last()[i - 1]);
            assert(before[i - 1] == batch[limit - 1 - (i - 1)]);
        }
    }
    assert(!after.contains(batch[0])) by {
        if after.contains(batch[0]) {
            let at = after.index_of(batch[0]);
            assert(after[at] == batch[limit - at]);
        }
    }
    assert forall|i: int| 1 <= i <= limit implies after.contains(#[trigger] batch[i]) by {
        assert(after[limit - i] == batch[i]);
    }
}

/// Distinct values that all occur in `pool` are no more than `pool` has
/// entries.
pub proof fn lemma_distinct_fit<A>(list: Seq<A>, pool: Seq<A>)
    requires
        list.no_duplicates(),
        forall|i: int| 0 <= i < list.len() ==> pool.contains(#[trigger] list[i]),
    ensures
        list.len() <= pool.len(),
{
    list.unique_seq_to_set();
    pool.lemma_cardinality_of_set();
    vstd::seq_lib::seq_to_set_is_finite(pool);
    assert(list.to_set().subset_of(pool.to_set())) by {
        assert forall|a: A| list.to_set().contains(a) implies pool.to_set().contains(a) by {
            let i = list.index_of(a);
            assert(pool.contains(list[i]));
        }
    }
    vstd::set_lib::lemma_len_subset(list.to_set(), pool.to_set());
}

/// Whether `id` is held and every identifier in front of it, which was
/// used after it, is one of `others`.
pub open spec fn sheltered(ids: Seq<u128>, id: u128, others: Seq<u128>) -> bool {
    &&& ids.contains(id)
    &&& forall|j: int| 0 <= j < ids.index_of(id) ==> others.contains(#[trigger] ids[j])
}

/// An identifier stays in the cache while the identifiers put after it are
/// fewer than the capacity: where only identifiers of `others`, and fewer
/// of them than the capacity, stand in front of `id`, putting a new
/// identifier of `others` leaves `id` in the cache, with only identifiers
/// of `others` in front of it.
pub proof fn lemma_sheltered(ids: Seq<u128>, limit: nat, id: u128, others: Seq<u128>, next: u128)
    requires
        bounded(ids, limit),
        sheltered(ids, id, others),
        others.no_duplicates(),
        others.len() < limit,
        others.contains(next),
        !ids.contains(next),
    ensures
        bounded(touch(ids, limit, next), limit),
        sheltered(touch(ids, limit, next), id, others),
{
    let after = touch(ids, limit, next);
    let at = ids.index_of(id);
    lemma_touch(ids, limit, next);
    let front = ids.take(at).push(next);
    assert forall|i: int, j: int|
        0 <= i < front.len() && 0 <= j < front.len() && i != j implies front[i] != front[j] by {
        if i < at {
            assert(ids.contains(ids[i]));
        }
        if j < at {
            assert(ids.contains(ids[j]));
        }
    }
    assert forall|i: int| 0 <= i < front.len() implies others.contains(#[trigger] front[i]) by {
        if i < at {
            assert(front[i] == ids[i]);
        }
    }
    lemma_distinct_fit(front, others);
    let kept = if ids.len() == limit {
        ids.drop_last()
    } else {
        ids
    };
    assert(after == seq![next] + kept);
    assert(at < kept.len());
    assert(after[at + 1] == id);
    let now = after.index_of(id);
    assert(now == at + 1);
    assert forall|j: int| 0 <= j < now implies others.contains(#[trigger] after[j]) by {
        if j > 0 {
            assert(after[j] == ids[j - 1]);
        }
    }
}

/// A bounded set of message identifiers that forgets the least recently
/// used one when it is full.
///
/// The view is the sequence of the identifiers held, the most recently used
/// first.
pub struct DedupCache {
    inner: lru::LruCache<u128, ()>,
}

impl View for DedupCache {
    type V = Seq<u128>;

    closed spec fn view(&self) -> Seq<u128> {
        cached_ids(self.inner)
    }
}

/// `lru::LruCache::new`: the cache it returns is empty and has the capacity
/// asked for. The capacity is bounded because the call reserves memory for
/// that many entries at once.
#[verifier::external_body]
fn lru_new(limit: usize) -> (cache: lru::LruCache<u128, ()>)
    requires
        limit <= MAX_CACHE_CAPACITY,
    ensures
        cached_ids(cache) == Seq::<u128>::empty(),
        cache_limit(cache) == limit,
{
    lru::LruCache::new(limit)
}

/// `lru::LruCache::contains`: whether the key is held. The call leaves the
/// order of use as it is.
#[verifier::external_body]
fn lru_contains(cache: &lru::LruCache<u128, ()>, id: u128) -> (found: bool)
    ensures
        found == cached_ids(*cache).contains(id),
{
    cache.contains(&id)
}

/// `lru::LruCache::put`, on the cache inside `cache`: a key that is held
/// becomes the most recently used one; a new key is added as the most
/// recently used one, in place of the least recently used one where the
/// cache is full. The capacity stays.
#[verifier::external_body]
fn lru_put(cache: &mut DedupCache, id: u128)
    ensures
        cached_ids(final(cache).inner) == touch(
            cached_ids(old(cache).inner),
            cache_limit(old(cache).inner),
            id,
        ),
        cache_limit(final(cache).inner) == cache_limit(old(cache).inner),
{
    cache.inner.put(id, ());
}

impl DedupCache {
    #[verifier::type_invariant]
    spec fn within_capacity(self) -> bool {
        bounded(cached_ids(self.inner), cache_limit(self.inner))
    }

    /// The number of identifiers that the cache holds at most.
    pub closed spec fn capacity(&self) -> nat {
        cache_limit(self.inner)
    }

    fn create(limit: usize) -> (cache: DedupCache)
        requires
            0 < limit <= MAX_CACHE_CAPACITY,
        ensures
            cache@ == Seq::<u128>::empty(),
            cache.capacity() == limit,
    {
        DedupCache { inner: lru_new(limit) }
    }

    /// An empty cache of the default capacity.
    pub fn new() -> (cache: DedupCache)
        ensures
            cache@ == Seq::<u128>::empty(),
            cache.capacity() == SEEN_CACHE_CAPACITY,
    {
        DedupCache::create(SEEN_CACHE_CAPACITY)
    }

    /// An empty cache that holds up to `limit` identifiers, where `limit` is
    /// at least one and at most `MAX_CACHE_CAPACITY`.
    pub fn with_capacity(limit: usize) -> (made: Option<DedupCache>)
        ensures
            made is Some <==> 0 < limit <= MAX_CACHE_CAPACITY,
            made matches Some(cache) ==> cache@ == Seq::<u128>::empty() && cache.capacity()
                == limit,
    {
        if 0 < limit && limit <= MAX_CACHE_CAPACITY {
            Some(DedupCache::create(limit))
        } else {
            None
        }
    }

    /// Whether `id` is held. Asking does not count as a use.
    pub fn contains(&self, id: u128) -> (found: bool)
        ensures
            found == self@.contains(id),
            bounded(self@, self.capacity()),
    {
        proof {
            use_type_invariant(self);
        }
        lru_contains(&self.inner, id)
    }

    /// Records `id` as the most recently used identifier.
    pub fn insert(&mut self, id: u128)
        ensures
            final(self)@ == touch(old(self)@, old(self).capacity(), id),
            final(self).capacity() == old(self).capacity(),
            final(self)@.contains(id),
            bounded(final(self)@, final(self).capacity()),
    {
        proof {
            use_type_invariant(&*self);
            lemma_touch(self@, self.capacity(), id);
        }
        lru_put(self, id);
    }
}

} // verus!
