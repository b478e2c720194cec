//! Captions of media groups, kept for the items of a group that come without
//! one. A bounded store: when it is full, the group whose caption was recorded
//! longest ago gives way.

use lru::LruCache;
use vstd::prelude::*;

verus! {

/// The cache of the `lru` crate, as an opaque value.
#[verifier::external_type_specification]
#[verifier::external_body]
#[verifier::reject_recursive_types(K)]
#[verifier::reject_recursive_types(V)]
#[verifier::reject_recursive_types(S)]
pub struct ExLruCache<K, V, S>(LruCache<K, V, S>);

/// The hasher that a cache of the `lru` crate has where none is given.
#[verifier::external_type_specification]
#[verifier::external_body]
pub struct ExDefaultHasher(lru::DefaultHasher);

/// What a cache holds: its keys with their values, the most recently used
/// first.
pub uninterp spec fn cache_entries(cache: LruCache<String, String>) -> Seq<(Seq<char>, Seq<char>)>;

/// The number of entries that a cache was made to hold.
pub uninterp spec fn cache_limit(cache: LruCache<String, String>) -> nat;

/// Whether one of `entries` has the key `key`.
pub open spec fn has_key(entries: Seq<(Seq<char>, Seq<char>)>, key: Seq<char>) -> bool {
    exists|i: int| 0 <= i < entries.len() && (#[trigger] entries[i]).0 == key
}

/// The value of the first of `entries` with the key `key`.
pub open spec fn value_of(entries: Seq<(Seq<char>, Seq<char>)>, key: Seq<char>) -> Option<
    Seq<char>,
>
    decreases entries.len(),
{
    if entries.len() == 0 {
        None
    } else if entries.first().0 == key {
        Some(entries.first().1)
    } else {
        value_of(entries.drop_first(), key)
    }
}

/// The entries without those of the key `key`, in their order.
pub open spec fn without_key(entries: Seq<(Seq<char>, Seq<char>)>, key: Seq<char>) -> Seq<
    (Seq<char>, Seq<char>),
>
    decreases entries.len(),
{
    if entries.len() == 0 {
        entries
    } else if entries.first().0 == key {
        without_key(entries.drop_first(), key)
    } else {
        seq![entries.first()] + without_key(entries.drop_first(), key)
    }
}

/// The entries after `key` was given the value `value` in a store of at most
/// `limit` entries. The entry of `key` comes to the front. A key that is new
/// to a full store takes the place of the last entry, and a store that holds
/// nothing stays empty.
pub open spec fn with_entry(
    entries: Seq<(Seq<char>, Seq<char>)>,
    limit: nat,
    key: Seq<char>,
    value: Seq<char>,
) -> Seq<(Seq<char>, Seq<char>)> {
    if has_key(entries, key) {
        seq![(key, value)] + without_key(entries, key)
    } else if limit == 0 {
        entries
    } else if entries.len() == limit {
        seq![(key, value)] + entries.drop_last()
    } else {
        seq![(key, value)] + entries
    }
}

/// `LruCache::new`: an empty cache for at most `limit` entries.
#[verifier::external_body]
fn cache_new(limit: u16) -> (cache: LruCache<String, String>)
    ensures
        cache_entries(cache) == Seq::<(Seq<char>, Seq<char>)>::empty(),
        cache_limit(cache) == limit,
{
    LruCache::new(usize::from(limit))
}

/// `LruCache::put`: the key gets the value and becomes the most recently used
/// entry; a new key in a full cache replaces the least recently used entry.
/// The call comes back: a cache of strings has no key whose hash or
/// comparison could fail.
#[verifier::external_body]
fn cache_put(cache: &mut LruCache<String, String>, key: String, value: String)
    ensures
        cache_entries(*final(cache)) == with_entry(
            cache_entries(*old(cache)),
            cache_limit(*old(cache)),
            key@,
            value@,
        ),
        cache_limit(*final(cache)) == cache_limit(*old(cache)),
    no_unwind
{
    cache.put(key, value);
}

/// `LruCache::peek`: the value of the key, if the cache holds it. The order of
/// the entries stays as it is.
#[verifier::external_body]
fn cache_peek<'a>(cache: &'a LruCache<String, String>, key: &String) -> (value: Option<
    &'a String,
>)
    ensures
        value.deep_view() == value_of(cache_entries(*cache), key@),
{
    cache.peek(key)
}

/// The captions of media groups: at most a fixed number of them, each under
/// the identifier of its group, the most recently recorded first.
pub struct CaptionCache {
    cache: LruCache<String, String>,
}

impl View for CaptionCache {
    type V = Seq<(Seq<char>, Seq<char>)>;

    closed spec fn view(&self) -> Seq<(Seq<char>, Seq<char>)> {
        cache_entries(self.cache)
    }
}

impl CaptionCache {
    /// The number of captions that the store has room for.
    pub closed spec fn limit(&self) -> nat {
        cache_limit(self.cache)
    }

    #[verifier::type_invariant]
    spec fn well_formed(self) -> bool {
        is_store(self@, self.limit())
    }

    /// An empty store with room for `limit` captions.
    pub fn new(limit: u16) -> (r: CaptionCache)
        ensures
            r@ == Seq::<(Seq<char>, Seq<char>)>::empty(),
            r.limit() == limit,
    {
        CaptionCache { cache: cache_new(limit) }
    }

    /// Records the caption of a group. The group becomes the most recently
    /// recorded one, whether it had a caption before or not; where the store
    /// is full and the group is new to it, the group that was recorded
    /// longest ago gives way.
    pub fn record(&mut self, group_id: &str, caption: &str)
        ensures
            final(self)@ == with_entry(old(self)@, old(self).limit(), group_id@, caption@),
            final(self).limit() == old(self).limit(),
            is_store(final(self)@, final(self).limit()),
    {
        proof {
            use_type_invariant(&*self);
            lemma_with_entry_is_store(self@, self.limit(), group_id@, caption@);
        }
        cache_put(&mut self.cache, group_id.to_owned(), caption.to_owned());
    }

    /// The caption that was recorded for a group, if the store still holds
    /// it. Looking up changes nothing: the group is no more recent for it.
    pub fn lookup(&self, group_id: &str) -> (r: Option<&String>)
        ensures
            r.deep_view() == value_of(self@, group_id@),
            is_store(self@, self.limit()),
    {
        proof {
            use_type_invariant(self);
        }
        let key = group_id.to_owned();
        cache_peek(&self.cache, &key)
    }
}

/// Whether no two of `entries` have the same key.
pub open spec fn distinct_keys(entries: Seq<(Seq<char>, Seq<char>)>) -> bool {
    forall|i: int, j: int|
        0 <= i < j < entries.len() ==> (#[trigger] entries[i]).0 != (#[trigger] entries[j]).0
}

/// Whether `entries` can be what a store of at most `limit` entries holds.
pub open spec fn is_store(entries: Seq<(Seq<char>, Seq<char>)>, limit: nat) -> bool {
    distinct_keys(entries) && entries.len() <= limit
}

/// The entries after each of `added` was recorded in turn, the first of them
/// first.
pub open spec fn with_entries(
    entries: Seq<(Seq<char>, Seq<char>)>,
    limit: nat,
    added: Seq<(Seq<char>, Seq<char>)>,
) -> Seq<(Seq<char>, Seq<char>)>
    decreases added.len(),
{
    if added.len() == 0 {
        entries
    } else {
        with_entry(
            with_entries(entries, limit, added.drop_last()),
            limit,
            added.last().0,
            added.last().1,
        )
    }
}

/// A key has a value exactly where an entry has that key, and the value is
/// that of the first such entry.
pub proof fn lemma_value_of(entries: Seq<(Seq<char>, Seq<char>)>, key: Seq<char>)
    ensures
        value_of(entries, key) is Some <==> has_key(entries, key),
        value_of(entries, key) is Some ==> exists|i: int|
            0 <= i < entries.len() && #[trigger] entries[i] == (key, value_of(entries, key)->0),
    decreases entries.len(),
{
    if entries.len() == 0 {
    } else if entries.first().0 == key {
        assert(entries[0] == (key, entries.first().1));
    } else {
        let rest = entries.drop_first();
        lemma_value_of(rest, key);
        if has_key(entries, key) {
            let i = choose|i: int| 0 <= i < entries.len() && (#[trigger] entries[i]).0 == key;
            assert(rest[i - 1] == entries[i]);
        }
        if has_key(rest, key) {
            let i = choose|i: int|
                0 <= i < rest.len() && #[trigger] rest[i] == (key, value_of(rest, key)->0);
            assert(entries[i + 1] == rest[i]);
        }
    }
}

/// What is left without a key: entries that were there, none of them with
/// that key, in the order they had. Every other key keeps its value.
pub proof fn lemma_without_key(entries: Seq<(Seq<char>, Seq<char>)>, key: Seq<char>)
    ensures
        !has_key(without_key(entries, key), key),
        without_key(entries, key).len() <= entries.len(),
        has_key(entries, key) ==> without_key(entries, key).len() < entries.len(),
        !has_key(entries, key) ==> without_key(entries, key) == entries,
        distinct_keys(entries) ==> distinct_keys(without_key(entries, key)),
        forall|other: Seq<char>|
            other != key ==> (has_key(without_key(entries, key), other) <==> has_key(
                entries,
                other,
            )),
        forall|other: Seq<char>|
            other != key ==> value_of(without_key(entries, key), other) == value_of(
                entries,
                other,
            ),
    decreases entries.len(),
{
    let left = without_key(entries, key);
    if entries.len() == 0 {
    } else {
        let rest = entries.drop_first();
        let inner = without_key(rest, key);
        lemma_without_key(rest, key);
        assert forall|other: Seq<char>| has_key(entries, other) <==> (entries.first().0 == other
            || has_key(rest, other)) by {
            if has_key(entries, other) {
                let i = choose|i: int| 0 <= i < entries.len() && (#[trigger] entries[i]).0 == other;
                if i > 0 {
                    assert(rest[i - 1] == entries[i]);
                }
            }
            if has_key(rest, other) {
                let i = choose|i: int| 0 <= i < rest.len() && (#[trigger] rest[i]).0 == other;
                assert(entries[i + 1] == rest[i]);
            }
        }
        assert forall|other: Seq<char>| other != key implies value_of(left, other) == value_of(
            entries,
            other,
        ) by {
            assert(value_of(inner, other) == value_of(rest, other));
            if entries.first().0 != key {
                assert(left =~= seq![entries.first()] + inner);
                assert(left.first() == entries.first());
                assert(left.drop_first() =~= inner);
            } else {
                assert(left == inner);
            }
        }
        if entries.first().0 == key {
        } else {
            let head = entries.first();
            assert(left == seq![head] + inner);
            assert(left.first() == head);
            assert(left.drop_first() =~= inner);
            assert forall|other: Seq<char>| has_key(left, other) <==> (head.0 == other || has_key(
                inner,
                other,
            )) by {
                if has_key(left, other) {
                    let i = choose|i: int| 0 <= i < left.len() && (#[trigger] left[i]).0 == other;
                    if i > 0 {
                        assert(inner[i - 1] == left[i]);
                    }
                }
                if has_key(inner, other) {
                    let i = choose|i: int| 0 <= i < inner.len() && (#[trigger] inner[i]).0 == other;
                    assert(left[i + 1] == inner[i]);
                }
            }
            if !has_key(entries, key) {
                assert(left =~= entries);
            }
            if distinct_keys(entries) {
                assert(distinct_keys(rest)) by {
                    assert forall|i: int, j: int| 0 <= i < j < rest.len() implies (
                    #[trigger] rest[i]).0 != (#[trigger] rest[j]).0 by {
                        assert(rest[i] == entries[i + 1]);
                        assert(rest[j] == entries[j + 1]);
                    }
                }
                assert(!has_key(rest, head.0)) by {
                    if has_key(rest, head.0) {
                        let i = choose|i: int|
                            0 <= i < rest.len() && (#[trigger] rest[i]).0 == head.0;
                        assert(entries[i + 1] == rest[i]);
                        assert(entries[0].0 != entries[i + 1].0);
                    }
                }
                assert forall|i: int, j: int| 0 <= i < j < left.len() implies (#[trigger] left[i]).0
                    != (#[trigger] left[j]).0 by {
                    assert(left[j] == inner[j - 1]);
                    if i == 0 {
                        assert(has_key(inner, inner[j - 1].0));
                    } else {
                        assert(left[i] == inner[i - 1]);
                    }
                }
            }
        }
    }
}

/// Recording keeps a store a store.
pub proof fn lemma_with_entry_is_store(
    entries: Seq<(Seq<char>, Seq<char>)>,
    limit: nat,
    key: Seq<char>,
    value: Seq<char>,
)
    requires
        is_store(entries, limit),
    ensures
        is_store(with_entry(entries, limit, key, value), limit),
{
    let after = with_entry(entries, limit, key, value);
    lemma_without_key(entries, key);
    if has_key(entries, key) {
        let left = without_key(entries, key);
        assert forall|i: int, j: int| 0 <= i < j < after.len() implies (#[trigger] after[i]).0 != (
        #[trigger] after[j]).0 by {
            assert(after[j] == left[j - 1]);
            if i == 0 {
                assert(has_key(left, left[j - 1].0));
            } else {
                assert(after[i] == left[i - 1]);
            }
        }
    } else if limit == 0 {
    } else {
        let kept = if entries.len() == limit {
            entries.drop_last()
        } else {
            entries
        };
        assert(after == seq![(key, value)] + kept);
        assert forall|i: int, j: int| 0 <= i < j < after.len() implies (#[trigger] after[i]).0 != (
        #[trigger] after[j]).0 by {
            assert(after[j] == entries[j - 1]);
            if i == 0 {
                assert(has_key(entries, entries[j - 1].0));
            } else {
                assert(after[i] == entries[i - 1]);
            }
        }
    }
}

/// A caption that was recorded is found again, where the store holds
/// anything at all.
pub proof fn lemma_recorded_is_found(
    entries: Seq<(Seq<char>, Seq<char>)>,
    limit: nat,
    key: Seq<char>,
    value: Seq<char>,
)
    requires
        limit > 0,
    ensures
        value_of(with_entry(entries, limit, key, value), key) == Some(value),
{
    let after = with_entry(entries, limit, key, value);
    assert(after.first() == (key, value));
}

/// Nothing is found for a group of which nothing was recorded.
pub proof fn lemma_unknown_is_not_found(
    limit: nat,
    added: Seq<(Seq<char>, Seq<char>)>,
    key: Seq<char>,
)
    requires
        !has_key(added, key),
    ensures
        value_of(with_entries(Seq::empty(), limit, added), key) is None,
    decreases added.len(),
{
    let empty = Seq::<(Seq<char>, Seq<char>)>::empty();
    if added.len() == 0 {
    } else {
        let before = with_entries(empty, limit, added.drop_last());
        let last = added.last();
        assert(!has_key(added.drop_last(), key)) by {
            if has_key(added.drop_last(), key) {
                let i = choose|i: int|
                    0 <= i < added.drop_last().len() && (#[trigger] added.drop_last()[i]).0 == key;
                assert(added[i] == added.drop_last()[i]);
            }
        }
        lemma_unknown_is_not_found(limit, added.drop_last(), key);
        assert(last.0 != key) by {
            assert(added[added.len() - 1] == last);
        }
        lemma_with_entry_other_key(before, limit, last.0, last.1, key);
    }
}

/// Recording for one group takes no caption from another group, unless the
/// other group is the one that gives way, and gives it none.
pub proof fn lemma_with_entry_other_key(
    entries: Seq<(Seq<char>, Seq<char>)>,
    limit: nat,
    key: Seq<char>,
    value: Seq<char>,
    other: Seq<char>,
)
    requires
        other != key,
    ensures
        value_of(with_entry(entries, limit, key, value), other) is Some ==> value_of(
            with_entry(entries, limit, key, value),
            other,
        ) == value_of(entries, other),
        value_of(entries, other) is Some && !(!has_key(entries, key) && entries.len() == limit
            && entries.last().0 == other) && distinct_keys(entries) ==> value_of(
            with_entry(entries, limit, key, value),
            other,
        ) == value_of(entries, other),
{
    let after = with_entry(entries, limit, key, value);
    lemma_without_key(entries, key);
    if has_key(entries, key) {
        assert(after.drop_first() =~= without_key(entries, key));
    } else if limit == 0 {
    } else if entries.len() == limit {
        assert(after.drop_first() =~= entries.drop_last());
        lemma_value_of_drop_last(entries, other);
    } else {
        assert(after.drop_first() =~= entries);
    }
}

/// Without its last entry a sequence gives each key the value it gave before,
/// or none; it gives none only to the key of the last entry, where the keys
/// are distinct.
pub proof fn lemma_value_of_drop_last(entries: Seq<(Seq<char>, Seq<char>)>, key: Seq<char>)
    requires
        entries.len() > 0,
    ensures
        value_of(entries.drop_last(), key) is Some ==> value_of(entries.drop_last(), key)
            == value_of(entries, key),
        entries.last().0 != key ==> value_of(entries.drop_last(), key) == value_of(entries, key),
        distinct_keys(entries) && entries.last().0 == key ==> value_of(entries.drop_last(), key)
            is None,
    decreases entries.len(),
{
    if entries.len() == 1 {
        assert(entries.drop_last() =~= Seq::<(Seq<char>, Seq<char>)>::empty());
        assert(entries.drop_first() =~= Seq::<(Seq<char>, Seq<char>)>::empty());
    } else {
        let rest = entries.drop_first();
        assert(entries.drop_last().drop_first() =~= rest.drop_last());
        assert(entries.drop_last().first() == entries.first());
        assert(rest.last() == entries.last());
        lemma_value_of_drop_last(rest, key);
        if distinct_keys(entries) {
            assert forall|i: int, j: int| 0 <= i < j < rest.len() implies (#[trigger] rest[i]).0 != (
            #[trigger] rest[j]).0 by {
                assert(rest[i] == entries[i + 1]);
                assert(rest[j] == entries[j + 1]);
            }
            assert(entries[0].0 != entries[entries.len() - 1].0);
        }
    }
}

/// While a store has room, it holds what was recorded for distinct groups,
/// the last recorded first.
pub proof fn lemma_store_fills(limit: nat, added: Seq<(Seq<char>, Seq<char>)>)
    requires
        distinct_keys(added),
        added.len() <= limit,
    ensures
        with_entries(Seq::empty(), limit, added) == added.reverse(),
    decreases added.len(),
{
    let empty = Seq::<(Seq<char>, Seq<char>)>::empty();
    if added.len() == 0 {
        assert(added.reverse() =~= empty);
    } else {
        let front = added.drop_last();
        let last = added.last();
        lemma_store_fills(limit, front);
        let before = front.reverse();
        assert(!has_key(before, last.0)) by {
            if has_key(before, last.0) {
                let i = choose|i: int| 0 <= i < before.len() && (#[trigger] before[i]).0 == last.0;
                assert(before[i] == added[front.len() - 1 - i]);
                assert(added[front.len() - 1 - i].0 != added[added.len() - 1].0);
            }
        }
        assert(seq![(last.0, last.1)] + before =~= added.reverse());
    }
}

/// Where one more group is recorded than the store has room for, the group
/// that was recorded first gives way, and no other.
pub proof fn lemma_oldest_gives_way(limit: nat, added: Seq<(Seq<char>, Seq<char>)>)
    requires
        limit > 0,
        distinct_keys(added),
        added.len() == limit + 1,
    ensures
        with_entries(Seq::empty(), limit, added) == added.drop_first().reverse(),
        value_of(with_entries(Seq::empty(), limit, added), added.first().0) is None,
        forall|i: int|
            1 <= i < added.len() ==> value_of(
                with_entries(Seq::empty(), limit, added),
                (#[trigger] added[i]).0,
            ) == Some(added[i].1),
{
    let front = added.drop_last();
    let last = added.last();
    let after = with_entries(Seq::empty(), limit, added);
    lemma_store_fills(limit, front);
    let before = front.reverse();
    assert(!has_key(before, last.0)) by {
        if has_key(before, last.0) {
            let i = choose|i: int| 0 <= i < before.len() && (#[trigger] before[i]).0 == last.0;
            assert(before[i] == added[front.len() - 1 - i]);
            assert(added[front.len() - 1 - i].0 != added[added.len() - 1].0);
        }
    }
    let left = added.drop_first().reverse();
    assert(seq![(last.0, last.1)] + before.drop_last() =~= left);
    assert(after == left);
    assert(distinct_keys(left)) by {
        assert forall|i: int, j: int| 0 <= i < j < left.len() implies (#[trigger] left[i]).0 != (
        #[trigger] left[j]).0 by {
            assert(left[i] == added[added.len() - 1 - i]);
            assert(left[j] == added[added.len() - 1 - j]);
        }
    }
    lemma_value_of(left, added.first().0);
    if has_key(left, added.first().0) {
        let i = choose|i: int| 0 <= i < left.len() && (#[trigger] left[i]).0 == added.first().0;
        assert(left[i] == added[added.len() - 1 - i]);
        assert(added[0].0 != added[added.len() - 1 - i].0);
    }
    assert forall|i: int| 1 <= i < added.len() implies value_of(left, (#[trigger] added[i]).0)
        == Some(added[i].1) by {
        let key = added[i].0;
        lemma_value_of(left, key);
        assert(left[added.len() - 1 - i] == added[i]);
        assert(has_key(left, key));
        let j = choose|j: int|
            0 <= j < left.len() && #[trigger] left[j] == (key, value_of(left, key)->0);
        if j != added.len() - 1 - i {
            if j < added.len() - 1 - i {
                assert(left[j].0 != left[added.len() - 1 - i].0);
            } else {
                assert(left[added.len() - 1 - i].0 != left[j].0);
            }
        }
    }
}

} // verus!
