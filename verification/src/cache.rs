//! A bounded cache of answer records. An answer leaves the cache when the
//! time to live of one of its records has passed, or, where room is needed,
//! when it is the one that was read least recently.

use crate::clock::{
    elapsed_nanos, moment_now, nanos_between, nanos_of, nanos_since, seconds_to_nanos,
};
use crate::domain_name::{name_key, DomainName};
use crate::queue::{
    queue_change_priority, queue_items, queue_new, queue_pop, queue_push, queue_remove,
};
use crate::resource_record::{record_views, DNSRecord, RecordView};
use crate::rr_types::RRType;
use priority_queue::PriorityQueue;
use std::collections::hash_map::RandomState;
use std::time::Instant;
use vstd::prelude::*;

verus! {

/// What an answer is stored under: the name, without the difference between
/// ASCII capital and small letters, and the record type.
pub struct KeyView {
    pub name: Seq<u8>,
    pub q_type: RRType,
}

/// The key of the answers for the records of type `q_type` of `name`.
pub open spec fn key_of(name: Seq<char>, q_type: RRType) -> KeyView {
    KeyView { name: name_key(name), q_type }
}

/// The key that answer records are stored under.
#[derive(Debug)]
pub struct CachedAnswerKey {
    domain_name: DomainName,
    q_type: RRType,
}

impl View for CachedAnswerKey {
    type V = KeyView;

    closed spec fn view(&self) -> KeyView {
        key_of(self.domain_name@, self.q_type)
    }
}

impl Clone for CachedAnswerKey {
    fn clone(&self) -> (key: Self)
        ensures
            key@ == self@,
    {
        CachedAnswerKey { domain_name: self.domain_name.clone(), q_type: self.q_type }
    }
}

impl CachedAnswerKey {
    /// The key of the answers for the records of type `q_type` of
    /// `domain_name`.
    pub fn new(domain_name: &DomainName, q_type: &RRType) -> (key: CachedAnswerKey)
        ensures
            key@ == key_of(domain_name@, *q_type),
    {
        CachedAnswerKey { domain_name: domain_name.clone(), q_type: *q_type }
    }

    /// Whether two keys are the same: the same type, and the same name but
    /// for the case of ASCII letters.
    pub fn same(&self, other: &CachedAnswerKey) -> (same: bool)
        ensures
            same == (self@ == other@),
    {
        self.q_type == other.q_type && self.domain_name == other.domain_name
    }
}

/// What a stored answer holds. The two times are in nanoseconds since the
/// cache was made.
pub struct AnswerView {
    pub records: Seq<RecordView>,
    pub last_read: u128,
    pub inserted_at: u128,
}

/// Whether an answer has expired at `now`: more time has passed since it
/// was stored than the time to live of one of its records.
pub open spec fn is_expired(answer: AnswerView, now: u128) -> bool {
    exists|i: int|
        0 <= i < answer.records.len() && nanos_between(answer.inserted_at, now) > nanos_of(
            (#[trigger] answer.records[i]).ttl,
        )
}

/// An answer that is stored in the cache.
#[derive(Debug)]
pub struct CachedAnswer {
    records: Vec<DNSRecord>,
    last_read: u128,
    inserted_at: u128,
    origin: Instant,
}

impl View for CachedAnswer {
    type V = AnswerView;

    closed spec fn view(&self) -> AnswerView {
        AnswerView {
            records: record_views(self.records@),
            last_read: self.last_read,
            inserted_at: self.inserted_at,
        }
    }
}

/// A copy of `records`.
pub fn copy_records(records: &Vec<DNSRecord>) -> (copy: Vec<DNSRecord>)
    ensures
        record_views(copy@) == record_views(records@),
{
    let mut copy: Vec<DNSRecord> = Vec::new();
    let mut i: usize = 0;
    while i < records.len()
        invariant
            i <= records@.len(),
            record_views(copy@) == record_views(records@).take(i as int),
        decreases records@.len() - i,
    {
        let ghost before = record_views(copy@);
        copy.push(records[i].clone());
        proof {
            assert(record_views(copy@) == before.push(records@[i as int]@));
            assert(record_views(records@).take(i + 1) == record_views(records@).take(
                i as int,
            ).push(records@[i as int]@));
        }
        i = i + 1;
    }
    proof {
        assert(record_views(records@).take(records@.len() as int) == record_views(records@));
    }
    copy
}

impl Clone for CachedAnswer {
    fn clone(&self) -> (answer: Self)
        ensures
            answer@ == self@,
    {
        CachedAnswer {
            records: copy_records(&self.records),
            last_read: self.last_read,
            inserted_at: self.inserted_at,
            origin: self.origin,
        }
    }
}

impl CachedAnswer {
    /// Whether the answer has expired by now. The clock is read once; the
    /// result is that of `expired_at` for the time read.
    pub fn expired(&self) -> (expired: bool)
        ensures
            exists|now: u128| expired == is_expired(self@, now),
    {
        let now = nanos_since(&self.origin);
        let expired = self.expired_at(now);
        assert(expired == is_expired(self@, now));
        expired
    }

    /// Whether the answer has expired at `now`, in nanoseconds since the
    /// cache was made: whether more time has passed since it was stored than
    /// the time to live of one of its records.
    pub fn expired_at(&self, now: u128) -> (expired: bool)
        ensures
            expired == is_expired(self@, now),
    {
        let elapsed = elapsed_nanos(self.inserted_at, now);
        let mut i: usize = 0;
        while i < self.records.len()
            invariant
                i <= self.records@.len(),
                elapsed == nanos_between(self.inserted_at, now),
                forall|j: int|
                    0 <= j < i ==> elapsed <= nanos_of(
                        (#[trigger] record_views(self.records@)[j]).ttl,
                    ),
            decreases self.records@.len() - i,
        {
            if elapsed > seconds_to_nanos(self.records[i].ttl()) {
                assert(nanos_of(record_views(self.records@)[i as int].ttl) < elapsed);
                return true;
            }
            i = i + 1;
        }
        false
    }

    /// A copy of the records of the answer.
    pub fn data(&self) -> (records: Vec<DNSRecord>)
        ensures
            record_views(records@) == self@.records,
    {
        copy_records(&self.records)
    }

    /// When the answer was last read, in nanoseconds since the cache was
    /// made.
    pub fn last_read(&self) -> (at: u128)
        ensures
            at == self@.last_read,
    {
        self.last_read
    }

    /// When the answer was stored, in nanoseconds since the cache was made.
    pub fn inserted_at(&self) -> (at: u128)
        ensures
            at == self@.inserted_at,
    {
        self.inserted_at
    }
}

/// What the cache holds: the stored answers by their keys.
pub type CacheView = Map<KeyView, AnswerView>;

/// The answer made of `records` that is stored at `now`.
pub open spec fn fresh_answer(records: Seq<RecordView>, now: u128) -> AnswerView {
    AnswerView { records, last_read: now, inserted_at: now }
}

/// The answer `answer` after it was read at `now`: its last read is `now`,
/// unless it was read later than that before.
pub open spec fn read_answer(answer: AnswerView, now: u128) -> AnswerView {
    AnswerView {
        last_read: if now > answer.last_read {
            now
        } else {
            answer.last_read
        },
        ..answer
    }
}

/// The cache without the answers that have expired at `now`.
pub open spec fn without_expired(cache: CacheView, now: u128) -> CacheView {
    Map::new(
        |key: KeyView| cache.dom().contains(key) && !is_expired(cache[key], now),
        |key: KeyView| cache[key],
    )
}

/// Whether `key` holds an answer of the cache that no other answer was read
/// before.
pub open spec fn is_oldest(cache: CacheView, key: KeyView) -> bool {
    cache.dom().contains(key) && forall|other: KeyView|
        cache.dom().contains(other) ==> cache[key].last_read <= (#[trigger] cache[other]).last_read
}

/// Whether `after` is `before` without one of the answers that were read
/// least recently; an empty cache stays empty.
pub open spec fn lost_least_recent(before: CacheView, after: CacheView) -> bool {
    if before.dom().len() == 0 {
        after == before
    } else {
        exists|victim: KeyView| is_oldest(before, victim) && after == before.remove(victim)
    }
}

/// Whether `after` is what eviction at `now` makes of `before` in a cache
/// for `capacity` answers: without the expired answers, and where that still
/// leaves `capacity` answers or more, without one of those read least
/// recently.
pub open spec fn was_evicted(
    before: CacheView,
    after: CacheView,
    capacity: nat,
    now: u128,
) -> bool {
    if without_expired(before, now).dom().len() >= capacity {
        lost_least_recent(without_expired(before, now), after)
    } else {
        after == without_expired(before, now)
    }
}

/// Whether `after` and `answer` are what reading `key` at `now` makes of
/// `before`: nothing for a key that is not there; nothing, and the answer
/// removed, for one that has expired; else the answer, with its last read
/// brought up to `now`.
pub open spec fn was_read(
    before: CacheView,
    after: CacheView,
    key: KeyView,
    now: u128,
    answer: Option<AnswerView>,
) -> bool {
    if !before.dom().contains(key) {
        after == before && answer is None
    } else if is_expired(before[key], now) {
        after == before.remove(key) && answer is None
    } else {
        after == before.insert(key, read_answer(before[key], now)) && answer == Some(
            read_answer(before[key], now),
        )
    }
}

/// Whether `after` is what storing `records` under `key` at `now` makes of
/// `before` in a cache for `capacity` answers.
///
/// No records: nothing changes. A key that holds an answer: the answer is
/// replaced if it has expired, and nothing changes if it has not. A new key:
/// where the cache is full, eviction comes first; then the answer is stored,
/// if there is room.
pub open spec fn was_stored(
    before: CacheView,
    after: CacheView,
    capacity: nat,
    key: KeyView,
    records: Seq<RecordView>,
    now: u128,
) -> bool {
    if records.len() == 0 {
        after == before
    } else if before.dom().contains(key) {
        if is_expired(before[key], now) {
            after == before.insert(key, fresh_answer(records, now))
        } else {
            after == before
        }
    } else if before.dom().len() < capacity {
        after == before.insert(key, fresh_answer(records, now))
    } else {
        exists|room: CacheView| #[trigger]
            was_evicted(before, room, capacity, now) && after == if room.dom().len() < capacity {
                room.insert(key, fresh_answer(records, now))
            } else {
                room
            }
    }
}

/// The priority of an answer in the queue: the later it was read, the
/// smaller.
pub open spec fn priority_of(last_read: u128) -> u128 {
    (u128::MAX - last_read) as u128
}

#[derive(Debug)]
struct CacheEntry {
    key: CachedAnswerKey,
    answer: CachedAnswer,
}

/// The keys of the entries, in their order.
spec fn keys(entries: Seq<CacheEntry>) -> Seq<KeyView> {
    Seq::new(entries.len(), |i: int| entries[i].key@)
}

/// The answers of the entries by their keys.
spec fn entries_map(entries: Seq<CacheEntry>) -> CacheView {
    Map::new(
        |key: KeyView| keys(entries).contains(key),
        |key: KeyView| entries[keys(entries).index_of(key)].answer@,
    )
}

/// Whether the queue holds the places of the entries, but for the place
/// `hole`, each with the priority of its answer.
spec fn queue_matches(entries: Seq<CacheEntry>, items: Map<usize, u128>, hole: int) -> bool {
    &&& forall|place: usize|
        items.dom().contains(place) <==> (place < entries.len() && place != hole)
    &&& forall|place: usize|
        place < entries.len() && place != hole ==> #[trigger] items[place] == priority_of(
            entries[place as int].answer.last_read,
        )
}

/// Whether every entry holds a record.
spec fn all_hold_records(entries: Seq<CacheEntry>) -> bool {
    forall|i: int| 0 <= i < entries.len() ==> (#[trigger] entries[i]).answer.records@.len() > 0
}

proof fn lemma_entry_lookup(entries: Seq<CacheEntry>, place: int)
    requires
        keys(entries).no_duplicates(),
        0 <= place < entries.len(),
    ensures
        entries_map(entries).dom().contains(entries[place].key@),
        entries_map(entries)[entries[place].key@] == entries[place].answer@,
{
    let key = entries[place].key@;
    assert(keys(entries)[place] == key);
    let found = keys(entries).index_of(key);
    assert(keys(entries)[found] == key);
}

proof fn lemma_entries_count(entries: Seq<CacheEntry>)
    requires
        keys(entries).no_duplicates(),
    ensures
        entries_map(entries).dom().finite(),
        entries_map(entries).dom().len() == entries.len(),
{
    keys(entries).unique_seq_to_set();
    vstd::seq_lib::seq_to_set_is_finite(keys(entries));
    assert(entries_map(entries).dom() =~= keys(entries).to_set());
}

proof fn lemma_entries_pushed(entries: Seq<CacheEntry>, entry: CacheEntry)
    requires
        keys(entries).no_duplicates(),
        !entries_map(entries).dom().contains(entry.key@),
    ensures
        keys(entries.push(entry)).no_duplicates(),
        entries_map(entries.push(entry)) == entries_map(entries).insert(entry.key@, entry.answer@),
{
    let more = entries.push(entry);
    assert(keys(more) == keys(entries).push(entry.key@));
    assert forall|i: int, j: int| 0 <= i < j < more.len() implies keys(more)[i] != keys(
        more,
    )[j] by {
        if j == entries.len() {
            assert(keys(entries)[i] == keys(more)[i]);
            assert(keys(entries).contains(keys(more)[i]));
        } else {
            assert(keys(entries)[i] != keys(entries)[j]);
        }
    }
    assert forall|key: KeyView|
        entries_map(more).dom().contains(key) <==> entries_map(entries).insert(
            entry.key@,
            entry.answer@,
        ).dom().contains(key) by {
        if keys(more).contains(key) {
            let i = choose|i: int| 0 <= i < more.len() && keys(more)[i] == key;
            if i < entries.len() {
                assert(keys(entries)[i] == key);
            }
        }
        if keys(entries).contains(key) {
            let i = choose|i: int| 0 <= i < entries.len() && keys(entries)[i] == key;
            assert(keys(more)[i] == key);
        }
        if key == entry.key@ {
            assert(keys(more)[entries.len() as int] == key);
        }
    }
    assert forall|key: KeyView| entries_map(more).dom().contains(key) implies entries_map(
        more,
    )[key] == entries_map(entries).insert(entry.key@, entry.answer@)[key] by {
        let i = choose|i: int| 0 <= i < more.len() && keys(more)[i] == key;
        lemma_entry_lookup(more, i);
        if i < entries.len() {
            assert(keys(entries)[i] == key);
            lemma_entry_lookup(entries, i);
        }
    }
    assert(entries_map(more) =~= entries_map(entries).insert(entry.key@, entry.answer@));
}

proof fn lemma_entries_updated(entries: Seq<CacheEntry>, place: int, entry: CacheEntry)
    requires
        keys(entries).no_duplicates(),
        0 <= place < entries.len(),
        entry.key@ == entries[place].key@,
    ensures
        keys(entries.update(place, entry)) == keys(entries),
        entries_map(entries.update(place, entry)) == entries_map(entries).insert(
            entry.key@,
            entry.answer@,
        ),
{
    let changed = entries.update(place, entry);
    assert(keys(changed) =~= keys(entries));
    assert forall|key: KeyView| entries_map(changed).dom().contains(key) implies entries_map(
        changed,
    )[key] == entries_map(entries).insert(entry.key@, entry.answer@)[key] by {
        let i = choose|i: int| 0 <= i < changed.len() && keys(changed)[i] == key;
        lemma_entry_lookup(changed, i);
        lemma_entry_lookup(entries, i);
        if i != place {
            assert(keys(entries)[i] != keys(entries)[place]);
        }
    }
    lemma_entry_lookup(entries, place);
    assert(entries_map(changed) =~= entries_map(entries).insert(entry.key@, entry.answer@));
}

proof fn lemma_entries_swap_removed(entries: Seq<CacheEntry>, place: int)
    requires
        keys(entries).no_duplicates(),
        0 <= place < entries.len(),
    ensures
        keys(entries.update(place, entries.last()).drop_last()).no_duplicates(),
        entries_map(entries.update(place, entries.last()).drop_last()) == entries_map(
            entries,
        ).remove(entries[place].key@),
{
    let fewer = entries.update(place, entries.last()).drop_last();
    let gone = entries[place].key@;
    let last = entries.len() - 1;
    assert forall|i: int| 0 <= i < fewer.len() implies keys(fewer)[i] == if i == place {
        keys(entries)[last]
    } else {
        keys(entries)[i]
    } by {}
    assert forall|i: int, j: int| 0 <= i < j < fewer.len() implies keys(fewer)[i] != keys(
        fewer,
    )[j] by {
        let a = if i == place {
            last
        } else {
            i
        };
        let b = if j == place {
            last
        } else {
            j
        };
        if a < b {
            assert(keys(entries)[a] != keys(entries)[b]);
        } else {
            assert(keys(entries)[b] != keys(entries)[a]);
        }
    }
    assert forall|i: int| 0 <= i < fewer.len() implies keys(fewer)[i] != gone by {
        let a = if i == place {
            last
        } else {
            i
        };
        if a < place {
            assert(keys(entries)[a] != keys(entries)[place]);
        } else {
            assert(keys(entries)[place] != keys(entries)[a]);
        }
    }
    assert forall|key: KeyView|
        entries_map(fewer).dom().contains(key) <==> entries_map(entries).remove(
            gone,
        ).dom().contains(key) by {
        if keys(fewer).contains(key) {
            let i = choose|i: int| 0 <= i < fewer.len() && keys(fewer)[i] == key;
            let a = if i == place {
                last
            } else {
                i
            };
            assert(keys(entries)[a] == key);
        }
        if keys(entries).contains(key) && key != gone {
            let i = choose|i: int| 0 <= i < entries.len() && keys(entries)[i] == key;
            if i == last {
                assert(keys(fewer)[place] == key);
            } else {
                assert(keys(fewer)[i] == key);
            }
        }
    }
    assert forall|key: KeyView| entries_map(fewer).dom().contains(key) implies entries_map(
        fewer,
    )[key] == entries_map(entries).remove(gone)[key] by {
        let i = choose|i: int| 0 <= i < fewer.len() && keys(fewer)[i] == key;
        lemma_entry_lookup(fewer, i);
        let a = if i == place {
            last
        } else {
            i
        };
        lemma_entry_lookup(entries, a);
    }
    assert(entries_map(fewer) =~= entries_map(entries).remove(gone));
}

/// A cache with a fixed capacity that stores the answer records of a domain
/// name and a record type, and evicts the answer read least recently.
#[derive(Debug)]
pub struct DNSCache {
    entries: Vec<CacheEntry>,
    // The places of the entries; the one read least recently comes out first.
    lru_priority: PriorityQueue<usize, u128, RandomState>,
    max_size: usize,
    origin: Instant,
}

impl View for DNSCache {
    type V = CacheView;

    closed spec fn view(&self) -> CacheView {
        entries_map(self.entries@)
    }
}

impl DNSCache {
    /// Whether the cache is in order: no key twice, no answer without
    /// records, not more answers than its capacity, and the queue in step
    /// with the answers.
    pub closed spec fn wf(&self) -> bool {
        &&& keys(self.entries@).no_duplicates()
        &&& all_hold_records(self.entries@)
        &&& self.entries@.len() <= self.max_size
        &&& queue_matches(self.entries@, queue_items(self.lru_priority), -1)
    }

    /// The number of answers that the cache has room for.
    pub closed spec fn capacity(&self) -> nat {
        self.max_size as nat
    }

    /// A cache in order holds finitely many answers, not more than its
    /// capacity, and none without records.
    pub proof fn lemma_bounded(&self)
        requires
            self.wf(),
        ensures
            self@.dom().finite(),
            self@.dom().len() <= self.capacity(),
            forall|key: KeyView|
                self@.dom().contains(key) ==> (#[trigger] self@[key]).records.len() > 0,
    {
        lemma_entries_count(self.entries@);
        assert forall|key: KeyView| self@.dom().contains(key) implies (
        #[trigger] self@[key]).records.len() > 0 by {
            let i = choose|i: int| 0 <= i < self.entries@.len() && keys(self.entries@)[i] == key;
            lemma_entry_lookup(self.entries@, i);
            assert(self.entries@[i].answer.records@.len() > 0);
        }
    }

    /// An empty cache with room for `max_size` answers.
    pub fn new(max_size: usize) -> (cache: DNSCache)
        ensures
            cache.wf(),
            cache@ == CacheView::empty(),
            cache.capacity() == max_size,
    {
        let cache = DNSCache {
            entries: Vec::new(),
            lru_priority: queue_new(),
            max_size,
            origin: moment_now(),
        };
        assert(cache@ =~= CacheView::empty());
        cache
    }

    /// The number of answers in the cache.
    pub fn len(&self) -> (count: usize)
        requires
            self.wf(),
        ensures
            count == self@.dom().len(),
            count <= self.capacity(),
    {
        proof {
            lemma_entries_count(self.entries@);
        }
        self.entries.len()
    }

    /// The number of answers that the cache has room for.
    pub fn max_size(&self) -> (max_size: usize)
        ensures
            max_size == self.capacity(),
    {
        self.max_size
    }

    /// The time on the clock of the cache: the nanoseconds since the cache
    /// was made.
    pub fn now(&self) -> u128 {
        nanos_since(&self.origin)
    }

    fn find(&self, key: &CachedAnswerKey) -> (place: Option<usize>)
        requires
            self.wf(),
        ensures
            match place {
                Some(i) => i < self.entries@.len() && self.entries@[i as int].key@ == key@,
                None => !self@.dom().contains(key@),
            },
    {
        let mut i: usize = 0;
        while i < self.entries.len()
            invariant
                i <= self.entries@.len(),
                forall|j: int| 0 <= j < i ==> keys(self.entries@)[j] != key@,
            decreases self.entries@.len() - i,
        {
            if self.entries[i].key.same(key) {
                return Some(i);
            }
            assert(keys(self.entries@)[i as int] != key@);
            i = i + 1;
        }
        None
    }

    /// Whether the cache is in order but for the queue, which misses the
    /// place `hole`.
    spec fn hollow(&self, hole: int) -> bool {
        &&& keys(self.entries@).no_duplicates()
        &&& all_hold_records(self.entries@)
        &&& self.entries@.len() <= self.max_size
        &&& 0 <= hole < self.entries@.len()
        &&& queue_matches(self.entries@, queue_items(self.lru_priority), hole)
    }

    /// Takes the entry at `hole` out, after its place has left the queue:
    /// the last entry moves into its place.
    fn fill_hole(&mut self, hole: usize)
        requires
            old(self).hollow(hole as int),
        ensures
            final(self).wf(),
            final(self).max_size == old(self).max_size,
            final(self)@ == old(self)@.remove(old(self).entries@[hole as int].key@),
            final(self).entries@ == old(self).entries@.update(
                hole as int,
                old(self).entries@.last(),
            ).drop_last(),
    {
        let last: usize = self.entries.len() - 1;
        if hole != last {
            let moved = queue_remove(&mut self.lru_priority, last);
            if let Some((_, priority)) = moved {
                queue_push(&mut self.lru_priority, hole, priority);
            }
        }
        proof {
            lemma_entries_swap_removed(self.entries@, hole as int);
        }
        self.entries.swap_remove(hole);
        proof {
            let fewer = self.entries@;
            assert forall|i: int| 0 <= i < fewer.len() implies (
            #[trigger] fewer[i]).answer.records@.len() > 0 by {
                if i == hole {
                    assert(fewer[i] == old(self).entries@[last as int]);
                } else {
                    assert(fewer[i] == old(self).entries@[i]);
                }
            }
        }
    }

    fn remove_at(&mut self, place: usize)
        requires
            old(self).wf(),
            place < old(self).entries@.len(),
        ensures
            final(self).wf(),
            final(self).max_size == old(self).max_size,
            final(self)@ == old(self)@.remove(old(self).entries@[place as int].key@),
            final(self).entries@ == old(self).entries@.update(
                place as int,
                old(self).entries@.last(),
            ).drop_last(),
    {
        queue_remove(&mut self.lru_priority, place);
        self.fill_hole(place);
    }

    /// Returns the answer stored for `domain_name` and `q_type`, and notes
    /// that it was read now. Returns nothing where no answer is stored, and
    /// where the stored answer has expired: that answer is then removed. The
    /// clock is read once; the outcome is that of `get_at` for the time
    /// read.
    pub fn get(&mut self, domain_name: &DomainName, q_type: &RRType) -> (answer: Option<
        CachedAnswer,
    >)
        requires
            old(self).wf(),
        ensures
            final(self).wf(),
            final(self).capacity() == old(self).capacity(),
            exists|now: u128|
                was_read(
                    old(self)@,
                    final(self)@,
                    key_of(domain_name@, *q_type),
                    now,
                    answer_view(answer),
                ),
    {
        let now = self.now();
        let answer = self.get_at(domain_name, q_type, now);
        assert(was_read(
            old(self)@,
            self@,
            key_of(domain_name@, *q_type),
            now,
            answer_view(answer),
        ));
        answer
    }

    /// What `get` does when the clock shows `now`, in nanoseconds since the
    /// cache was made.
    pub fn get_at(&mut self, domain_name: &DomainName, q_type: &RRType, now: u128) -> (answer:
        Option<CachedAnswer>)
        requires
            old(self).wf(),
        ensures
            final(self).wf(),
            final(self).capacity() == old(self).capacity(),
            was_read(
                old(self)@,
                final(self)@,
                key_of(domain_name@, *q_type),
                now,
                answer_view(answer),
            ),
    {
        let key = CachedAnswerKey::new(domain_name, q_type);
        match self.find(&key) {
            None => None,
            Some(place) => {
                proof {
                    lemma_entry_lookup(self.entries@, place as int);
                }
                if self.entries[place].answer.expired_at(now) {
                    self.remove_at(place);
                    None
                } else {
                    let ghost before = self.entries@;
                    if now > self.entries[place].answer.last_read {
                        self.entries[place].answer.last_read = now;
                        queue_change_priority(&mut self.lru_priority, place, u128::MAX - now);
                    }
                    proof {
                        assert(self.entries@ == before.update(
                            place as int,
                            self.entries@[place as int],
                        ));
                        lemma_entries_updated(before, place as int, self.entries@[place as int]);
                    }
                    Some(self.entries[place].answer.clone())
                }
            },
        }
    }

    /// Removes one of the answers that were read least recently. An empty
    /// cache stays as it is.
    pub fn remove_least_recently_used(&mut self)
        requires
            old(self).wf(),
        ensures
            final(self).wf(),
            final(self).capacity() == old(self).capacity(),
            lost_least_recent(old(self)@, final(self)@),
    {
        proof {
            lemma_entries_count(self.entries@);
        }
        match queue_pop(&mut self.lru_priority) {
            None => {
                proof {
                    if self.entries@.len() > 0 {
                        assert(queue_items(old(self).lru_priority).dom().contains(0usize));
                    }
                }
            },
            Some((place, priority)) => {
                let ghost victim = self.entries@[place as int].key@;
                proof {
                    let items = queue_items(old(self).lru_priority);
                    let entries = old(self).entries@;
                    assert(self.entries@ == entries);
                    assert(items.dom().contains(place));
                    assert(items[place] == priority_of(entries[place as int].answer.last_read));
                    lemma_entry_lookup(entries, place as int);
                    assert forall|other: KeyView| old(self)@.dom().contains(other) implies old(
                        self,
                    )@[victim].last_read <= (#[trigger] old(self)@[other]).last_read by {
                        let i = choose|i: int| 0 <= i < entries.len() && keys(entries)[i] == other;
                        lemma_entry_lookup(entries, i);
                        let spot = i as usize;
                        assert(items.dom().contains(spot));
                        assert(items[spot] == priority_of(entries[spot as int].answer.last_read));
                        assert(items[spot] <= priority);
                    }
                    assert(is_oldest(old(self)@, victim));
                }
                self.fill_hole(place);
            },
        }
    }

    /// Removes every answer that has expired, and then, where the cache is
    /// still full, one of the answers that were read least recently. The
    /// clock is read once; the outcome is that of `evict_at` for the time
    /// read.
    pub fn evict(&mut self)
        requires
            old(self).wf(),
        ensures
            final(self).wf(),
            final(self).capacity() == old(self).capacity(),
            exists|now: u128| was_evicted(old(self)@, final(self)@, old(self).capacity(), now),
    {
        let now = self.now();
        self.evict_at(now);
        assert(was_evicted(old(self)@, self@, old(self).capacity(), now));
    }

    /// What `evict` does when the clock shows `now`, in nanoseconds since
    /// the cache was made.
    pub fn evict_at(&mut self, now: u128)
        requires
            old(self).wf(),
        ensures
            final(self).wf(),
            final(self).capacity() == old(self).capacity(),
            was_evicted(old(self)@, final(self)@, old(self).capacity(), now),
    {
        let mut i: usize = 0;
        while i < self.entries.len()
            invariant
                self.wf(),
                self.max_size == old(self).max_size,
                i <= self.entries@.len(),
                forall|j: int|
                    0 <= j < i ==> !is_expired((#[trigger] self.entries@[j]).answer@, now),
                forall|key: KeyView| #[trigger]
                    self@.dom().contains(key) ==> old(self)@.dom().contains(key) && self@[key]
                        == old(self)@[key],
                forall|key: KeyView|
                    old(self)@.dom().contains(key) && !is_expired(old(self)@[key], now)
                        ==> #[trigger] self@.dom().contains(key),
            decreases self.entries@.len() - i,
        {
            if self.entries[i].answer.expired_at(now) {
                proof {
                    lemma_entry_lookup(self.entries@, i as int);
                }
                let ghost before = self.entries@;
                let ghost held = self@;
                self.remove_at(i);
                proof {
                    assert forall|j: int| 0 <= j < i implies !is_expired(
                        (#[trigger] self.entries@[j]).answer@,
                        now,
                    ) by {
                        assert(self.entries@[j] == before[j]);
                    }
                    assert(self@ == held.remove(before[i as int].key@));
                    assert forall|key: KeyView| #[trigger]
                        self@.dom().contains(key) implies old(self)@.dom().contains(key)
                        && self@[key] == old(self)@[key] by {
                        assert(held.dom().contains(key));
                        assert(self@[key] == held[key]);
                    }
                    assert forall|key: KeyView|
                        old(self)@.dom().contains(key) && !is_expired(
                            old(self)@[key],
                            now,
                        ) implies #[trigger] self@.dom().contains(key) by {
                        assert(held.dom().contains(key));
                        assert(held[key] == old(self)@[key]);
                    }
                }
            } else {
                i = i + 1;
            }
        }
        proof {
            assert forall|key: KeyView| self@.dom().contains(key) implies !is_expired(
                old(self)@[key],
                now,
            ) by {
                let j = choose|j: int|
                    0 <= j < self.entries@.len() && keys(self.entries@)[j] == key;
                lemma_entry_lookup(self.entries@, j);
            }
            assert(self@ =~= without_expired(old(self)@, now));
            lemma_entries_count(self.entries@);
        }
        if self.entries.len() >= self.max_size {
            self.remove_least_recently_used();
        }
    }

    /// Stores `records` as the answer for `domain_name` and `q_type`, read
    /// and stored now. Nothing changes where `records` is empty, and where
    /// an answer that has not expired is stored already. Where the key is
    /// new and the cache is full, eviction makes room first. The clock is
    /// read once; the outcome is that of `insert_at` for the time read.
    pub fn insert(&mut self, domain_name: &DomainName, q_type: &RRType, records: Vec<DNSRecord>)
        requires
            old(self).wf(),
        ensures
            final(self).wf(),
            final(self).capacity() == old(self).capacity(),
            exists|now: u128|
                was_stored(
                    old(self)@,
                    final(self)@,
                    old(self).capacity(),
                    key_of(domain_name@, *q_type),
                    record_views(records@),
                    now,
                ),
    {
        let now = self.now();
        let ghost views = record_views(records@);
        self.insert_at(domain_name, q_type, records, now);
        assert(was_stored(
            old(self)@,
            self@,
            old(self).capacity(),
            key_of(domain_name@, *q_type),
            views,
            now,
        ));
    }

    /// What `insert` does when the clock shows `now`, in nanoseconds since
    /// the cache was made.
    pub fn insert_at(
        &mut self,
        domain_name: &DomainName,
        q_type: &RRType,
        records: Vec<DNSRecord>,
        now: u128,
    )
        requires
            old(self).wf(),
        ensures
            final(self).wf(),
            final(self).capacity() == old(self).capacity(),
            was_stored(
                old(self)@,
                final(self)@,
                old(self).capacity(),
                key_of(domain_name@, *q_type),
                record_views(records@),
                now,
            ),
    {
        if records.len() == 0 {
            return ;
        }
        let key = CachedAnswerKey::new(domain_name, q_type);
        let answer = CachedAnswer {
            records,
            last_read: now,
            inserted_at: now,
            origin: self.origin,
        };
        proof {
            lemma_entries_count(self.entries@);
        }
        match self.find(&key) {
            Some(place) => {
                proof {
                    lemma_entry_lookup(self.entries@, place as int);
                }
                if self.entries[place].answer.expired_at(now) {
                    let ghost before = self.entries@;
                    self.entries[place].answer = answer;
                    queue_change_priority(&mut self.lru_priority, place, u128::MAX - now);
                    proof {
                        assert(self.entries@ == before.update(
                            place as int,
                            self.entries@[place as int],
                        ));
                        lemma_entries_updated(before, place as int, self.entries@[place as int]);
                        assert forall|i: int| 0 <= i < self.entries@.len() implies (
                        #[trigger] self.entries@[i]).answer.records@.len() > 0 by {
                            if i != place {
                                assert(self.entries@[i] == before[i]);
                            }
                        }
                    }
                }
            },
            None => {
                if self.entries.len() >= self.max_size {
                    self.evict_at(now);
                }
                let ghost room = self@;
                proof {
                    lemma_entries_count(self.entries@);
                    let capacity = old(self).capacity();
                    if old(self).entries@.len() >= old(self).max_size {
                        assert(was_evicted(old(self)@, room, capacity, now));
                        assert forall|other: KeyView| room.dom().contains(other) implies old(
                            self,
                        )@.dom().contains(other) by {
                            lemma_evicted_within(old(self)@, room, capacity, now, other);
                        }
                    }
                    assert(!room.dom().contains(key@));
                }
                if self.entries.len() < self.max_size {
                    let place: usize = self.entries.len();
                    let entry = CacheEntry { key, answer };
                    proof {
                        lemma_entries_pushed(self.entries@, entry);
                    }
                    let ghost before = self.entries@;
                    self.entries.push(entry);
                    queue_push(&mut self.lru_priority, place, u128::MAX - now);
                    proof {
                        assert forall|i: int| 0 <= i < self.entries@.len() implies (
                        #[trigger] self.entries@[i]).answer.records@.len() > 0 by {
                            if i < place {
                                assert(self.entries@[i] == before[i]);
                            }
                        }
                    }
                }
            },
        }
    }
}

/// What eviction leaves was there before.
pub proof fn lemma_evicted_within(
    before: CacheView,
    after: CacheView,
    capacity: nat,
    now: u128,
    key: KeyView,
)
    requires
        was_evicted(before, after, capacity, now),
        after.dom().contains(key),
    ensures
        before.dom().contains(key),
        after[key] == before[key],
        !is_expired(before[key], now),
{
}

/// Storing records under a key that holds an answer which has not expired
/// changes nothing.
pub proof fn lemma_store_keeps_live_answer(
    before: CacheView,
    after: CacheView,
    capacity: nat,
    key: KeyView,
    records: Seq<RecordView>,
    now: u128,
)
    requires
        was_stored(before, after, capacity, key, records, now),
        before.dom().contains(key),
        !is_expired(before[key], now),
    ensures
        after == before,
{
}

/// Reading a key whose answer has expired gives nothing and removes the
/// answer: that is the case once more time has passed since the answer was
/// stored than the time to live of one of its records.
pub proof fn lemma_read_drops_expired(
    before: CacheView,
    after: CacheView,
    key: KeyView,
    now: u128,
    answer: Option<AnswerView>,
    record: int,
)
    requires
        was_read(before, after, key, now, answer),
        before.dom().contains(key),
        0 <= record < before[key].records.len(),
        nanos_between(before[key].inserted_at, now) > nanos_of(before[key].records[record].ttl),
    ensures
        answer is None,
        !after.dom().contains(key),
        after == before.remove(key),
{
}

/// Reading never moves the last read of an answer backwards, and what it
/// returns has not expired.
pub proof fn lemma_read_moves_forward(
    before: CacheView,
    after: CacheView,
    key: KeyView,
    now: u128,
    answer: Option<AnswerView>,
)
    requires
        was_read(before, after, key, now, answer),
    ensures
        before.dom().contains(key) && after.dom().contains(key) ==> before[key].last_read
            <= after[key].last_read,
        answer matches Some(found) ==> !is_expired(found, now) && after.dom().contains(key)
            && after[key] == found,
{
    if let Some(found) = answer {
        assert(found.records == before[key].records);
        assert(found.inserted_at == before[key].inserted_at);
    }
}

/// What eviction leaves is not more than there was, and it is less than the
/// capacity where the cache held no more than its capacity of at least one.
pub proof fn lemma_evicted_makes_room(
    before: CacheView,
    after: CacheView,
    capacity: nat,
    now: u128,
)
    requires
        was_evicted(before, after, capacity, now),
        before.dom().finite(),
        before.dom().len() <= capacity,
        capacity >= 1,
    ensures
        after.dom().finite(),
        after.dom().len() < capacity,
{
    let live = without_expired(before, now);
    assert(live.dom().subset_of(before.dom()));
    vstd::set_lib::lemma_len_subset(live.dom(), before.dom());
    if live.dom().len() >= capacity {
        let victim = choose|victim: KeyView|
            is_oldest(live, victim) && after == live.remove(victim);
        assert(after.dom() == live.dom().remove(victim));
    }
}

/// After records with a time to live that has not run out are stored under
/// a key, reading the key gives those records. This holds in a cache with
/// room for at least one answer, unless the key held an answer that had not
/// expired when the records were stored.
pub proof fn lemma_store_then_read(
    before: CacheView,
    held: CacheView,
    after: CacheView,
    capacity: nat,
    key: KeyView,
    records: Seq<RecordView>,
    now: u128,
    later: u128,
    answer: Option<AnswerView>,
)
    requires
        before.dom().finite(),
        before.dom().len() <= capacity,
        capacity >= 1,
        records.len() > 0,
        before.dom().contains(key) ==> is_expired(before[key], now),
        was_stored(before, held, capacity, key, records, now),
        !is_expired(fresh_answer(records, now), later),
        was_read(held, after, key, later, answer),
    ensures
        answer matches Some(found) && found.records == records,
{
    if !before.dom().contains(key) && before.dom().len() >= capacity {
        let room = choose|room: CacheView| #[trigger]
            was_evicted(before, room, capacity, now) && held == if room.dom().len() < capacity {
                room.insert(key, fresh_answer(records, now))
            } else {
                room
            };
        lemma_evicted_makes_room(before, room, capacity, now);
    }
    assert(held.dom().contains(key));
    assert(held[key] == fresh_answer(records, now));
}

/// The cache after the first `count` of the answers were stored in an empty
/// cache with room for all of them: each under its key, read and stored at
/// its time.
pub open spec fn filled(
    keys: Seq<KeyView>,
    records: Seq<Seq<RecordView>>,
    times: Seq<u128>,
    count: nat,
) -> CacheView
    decreases count,
{
    if count == 0 {
        Map::empty()
    } else {
        filled(keys, records, times, (count - 1) as nat).insert(
            keys[count - 1],
            fresh_answer(records[count - 1], times[count - 1]),
        )
    }
}

/// What `filled` holds: the first `count` keys, each with its answer, and
/// nothing else.
pub proof fn lemma_filled(
    keys: Seq<KeyView>,
    records: Seq<Seq<RecordView>>,
    times: Seq<u128>,
    count: nat,
)
    requires
        keys.no_duplicates(),
        count <= keys.len(),
    ensures
        filled(keys, records, times, count).dom().finite(),
        filled(keys, records, times, count).dom().len() == count,
        forall|i: int|
            0 <= i < count ==> filled(keys, records, times, count).dom().contains(
                #[trigger] keys[i],
            ) && filled(keys, records, times, count)[keys[i]] == fresh_answer(
                records[i],
                times[i],
            ),
        forall|key: KeyView|
            filled(keys, records, times, count).dom().contains(key) ==> exists|i: int|
                0 <= i < count && #[trigger] keys[i] == key,
    decreases count,
{
    if count > 0 {
        let fewer = filled(keys, records, times, (count - 1) as nat);
        lemma_filled(keys, records, times, (count - 1) as nat);
        let added = keys[count - 1];
        if fewer.dom().contains(added) {
            let i = choose|i: int| 0 <= i < count - 1 && #[trigger] keys[i] == added;
            assert(keys[i] != keys[count - 1]);
        }
        let all = filled(keys, records, times, count);
        assert forall|i: int| 0 <= i < count implies all.dom().contains(#[trigger] keys[i])
            && all[keys[i]] == fresh_answer(records[i], times[i]) by {
            if i < count - 1 {
                assert(keys[i] != keys[count - 1]);
            }
        }
        assert forall|key: KeyView| all.dom().contains(key) implies exists|i: int|
            0 <= i < count && #[trigger] keys[i] == key by {
            if key == added {
                assert(keys[count - 1] == key);
            } else {
                let i = choose|i: int| 0 <= i < count - 1 && #[trigger] keys[i] == key;
                assert(keys[i] == key);
            }
        }
    }
}

/// Storing one answer more than the cache has room for evicts exactly the
/// answer that was read least recently.
///
/// The answers are stored one after the other in an empty cache with room
/// for `capacity` answers, under keys that differ, at times that grow, and
/// none of them expires meanwhile. After the last one the cache holds every
/// answer but the first.
pub proof fn lemma_lru_pressure(
    capacity: nat,
    keys: Seq<KeyView>,
    records: Seq<Seq<RecordView>>,
    times: Seq<u128>,
    states: Seq<CacheView>,
)
    requires
        capacity >= 1,
        keys.len() == capacity + 1,
        records.len() == capacity + 1,
        times.len() == capacity + 1,
        states.len() == capacity + 2,
        keys.no_duplicates(),
        states[0] == CacheView::empty(),
        forall|i: int| 0 <= i <= capacity ==> (#[trigger] records[i]).len() > 0,
        forall|i: int, j: int| 0 <= i < j <= capacity ==> #[trigger] times[i] < #[trigger] times[j],
        forall|i: int, j: int|
            0 <= i <= capacity && 0 <= j <= capacity ==> !is_expired(
                fresh_answer(#[trigger] records[i], times[i]),
                #[trigger] times[j],
            ),
        forall|i: int|
            0 <= i <= capacity ==> was_stored(
                #[trigger] states[i],
                states[i + 1],
                capacity,
                keys[i],
                records[i],
                times[i],
            ),
    ensures
        states[capacity as int + 1] == filled(keys, records, times, (capacity + 1) as nat).remove(
            keys[0],
        ),
        !states[capacity as int + 1].dom().contains(keys[0]),
        forall|i: int|
            1 <= i <= capacity ==> states[capacity as int + 1].dom().contains(#[trigger] keys[i]),
{
    lemma_fills(capacity, keys, records, times, states, capacity);
    let full = filled(keys, records, times, capacity);
    let now = times[capacity as int];
    let key = keys[capacity as int];
    lemma_filled(keys, records, times, capacity);
    lemma_filled(keys, records, times, (capacity + 1) as nat);
    assert(states[capacity as int] == full);
    assert(was_stored(
        states[capacity as int],
        states[capacity as int + 1],
        capacity,
        key,
        records[capacity as int],
        now,
    ));
    if full.dom().contains(key) {
        let i = choose|i: int| 0 <= i < capacity && #[trigger] keys[i] == key;
        assert(keys[i] != keys[capacity as int]);
    }
    let room = choose|room: CacheView| #[trigger]
        was_evicted(full, room, capacity, now) && states[capacity as int + 1] == if room.dom().len()
            < capacity {
            room.insert(key, fresh_answer(records[capacity as int], now))
        } else {
            room
        };
    lemma_evicted_makes_room(full, room, capacity, now);
    let live = without_expired(full, now);
    assert forall|other: KeyView| full.dom().contains(other) implies !is_expired(
        full[other],
        now,
    ) by {
        let i = choose|i: int| 0 <= i < capacity && #[trigger] keys[i] == other;
        assert(full[keys[i]] == fresh_answer(records[i], times[i]));
        assert(!is_expired(fresh_answer(records[i], times[i]), times[capacity as int]));
    }
    assert(live =~= full);
    let victim = choose|victim: KeyView| is_oldest(live, victim) && room == live.remove(victim);
    assert(is_oldest(full, victim) && room == full.remove(victim));
    let v = choose|i: int| 0 <= i < capacity && #[trigger] keys[i] == victim;
    if v != 0 {
        assert(full[keys[0]] == fresh_answer(records[0], times[0]));
        assert(full[keys[v]] == fresh_answer(records[v], times[v]));
        assert(times[0] < times[v]);
        assert(full[victim].last_read <= full[keys[0]].last_read);
    }
    assert(victim == keys[0]);
    assert(states[capacity as int + 1] =~= filled(
        keys,
        records,
        times,
        (capacity + 1) as nat,
    ).remove(keys[0]));
    assert forall|i: int| 1 <= i <= capacity implies states[capacity as int + 1].dom().contains(
        #[trigger] keys[i],
    ) by {
        assert(keys[i] != keys[0]);
    }
}

/// While there is room, each answer that is stored stays.
proof fn lemma_fills(
    capacity: nat,
    keys: Seq<KeyView>,
    records: Seq<Seq<RecordView>>,
    times: Seq<u128>,
    states: Seq<CacheView>,
    count: nat,
)
    requires
        count <= capacity,
        keys.len() == capacity + 1,
        records.len() == capacity + 1,
        times.len() == capacity + 1,
        states.len() == capacity + 2,
        keys.no_duplicates(),
        states[0] == CacheView::empty(),
        forall|i: int| 0 <= i <= capacity ==> (#[trigger] records[i]).len() > 0,
        forall|i: int|
            0 <= i <= capacity ==> was_stored(
                #[trigger] states[i],
                states[i + 1],
                capacity,
                keys[i],
                records[i],
                times[i],
            ),
    ensures
        states[count as int] == filled(keys, records, times, count),
    decreases count,
{
    if count > 0 {
        lemma_fills(capacity, keys, records, times, states, (count - 1) as nat);
        lemma_filled(keys, records, times, (count - 1) as nat);
        let fewer = filled(keys, records, times, (count - 1) as nat);
        let key = keys[count - 1];
        if fewer.dom().contains(key) {
            let i = choose|i: int| 0 <= i < count - 1 && #[trigger] keys[i] == key;
            assert(keys[i] != keys[count - 1]);
        }
        assert(was_stored(
            states[count - 1],
            states[count - 1 + 1],
            capacity,
            keys[count - 1],
            records[count - 1],
            times[count - 1],
        ));
    }
}

/// The view of an answer that may not be there.
pub open spec fn answer_view(answer: Option<CachedAnswer>) -> Option<AnswerView> {
    match answer {
        Some(answer) => Some(answer@),
        None => None,
    }
}

} // verus!
