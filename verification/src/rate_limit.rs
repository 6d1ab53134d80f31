//! A rate limiter with one bucket per key.
//!
//! It stands in place of a limit on the size of a message: a large message
//! is not punished for being large, but a sender of many is throttled. A
//! key is usually the address that a datagram came from. Such addresses can
//! be forged, so the number of keys that are remembered is bounded: the one
//! that was not seen for longest makes room for a new one.
//!
//! What a bucket holds, how it fills up and when it is empty is handed in.

use vstd::prelude::*;
use crate::table::StringTable;

verus! {

/// A bucket, and when it was last filled up. Times are readings of any
/// clock that does not run backwards.
#[derive(Debug)]
pub struct Bucket<T> {
    pub content: T,
    pub last_refill: u64,
}

/// A rate limiter with buckets of `T`.
#[verifier::reject_recursive_types(T)]
pub struct RateLimiter<T> {
    full: T,
    max_tracked_keys: usize,
    buckets: StringTable<Bucket<T>>,
}

impl<T> View for RateLimiter<T> {
    type V = Map<Seq<char>, Bucket<T>>;

    closed spec fn view(&self) -> Map<Seq<char>, Bucket<T>> {
        self.buckets@
    }
}

/// Whether no key was seen before `key`.
pub open spec fn seen_longest_ago<T>(m: Map<Seq<char>, Bucket<T>>, key: Seq<char>) -> bool {
    &&& m.contains_key(key)
    &&& forall|k: Seq<char>| #[trigger]
        m.contains_key(k) ==> m[key].last_refill <= m[k].last_refill
}

/// Whether `after` is `before` with room for `key`: where it is new and as
/// many keys are tracked as may be, one that was not seen for longest is
/// gone.
pub open spec fn room_made<T>(
    before: Map<Seq<char>, Bucket<T>>,
    key: Seq<char>,
    max_tracked_keys: usize,
    after: Map<Seq<char>, Bucket<T>>,
) -> bool {
    if !before.contains_key(key) && before.dom().len() >= max_tracked_keys && before.dom().len()
        > 0 {
        exists|gone: Seq<char>| #[trigger]
            seen_longest_ago(before, gone) && after == before.remove(gone)
    } else {
        after == before
    }
}

/// Time from `last` to `now`, or zero where the clock shows less.
pub open spec fn elapsed(last: u64, now: u64) -> u64 {
    if now >= last {
        (now - last) as u64
    } else {
        0
    }
}

impl<T: Copy> RateLimiter<T> {
    /// The table is in order.
    pub closed spec fn wf(self) -> bool {
        self.buckets.wf()
    }

    /// What a new bucket holds.
    pub closed spec fn spec_full(self) -> T {
        self.full
    }

    /// How many keys are tracked at most.
    pub closed spec fn limit(self) -> usize {
        self.max_tracked_keys
    }

    /// What the bucket of a key holds, and for how long it has: a new
    /// bucket is full.
    pub open spec fn bucket_of(self, key: Seq<char>, now: u64) -> (T, u64) {
        if self@.contains_key(key) {
            (self@[key].content, elapsed(self@[key].last_refill, now))
        } else {
            (self.spec_full(), 0)
        }
    }

    /// A limiter whose new buckets hold `full`, for as many keys at a time.
    pub fn new(full: T, max_tracked_keys: usize) -> (r: Self)
        ensures
            r.wf(),
            r@ == Map::<Seq<char>, Bucket<T>>::empty(),
            r.spec_full() == full,
            r.limit() == max_tracked_keys,
    {
        RateLimiter { full, max_tracked_keys, buckets: StringTable::new() }
    }

    /// Whether a request from `key` is allowed at `now`. `spend` gets what
    /// the bucket holds and for how long, and returns what it holds from now
    /// on and whether the request is allowed.
    pub fn allow_at<F: FnOnce(T, u64) -> (T, bool)>(&mut self, key: &str, now: u64, spend: F) -> (r:
        bool)
        requires
            old(self).wf(),
            call_requires(spend, old(self).bucket_of(key@, now)),
        ensures
            final(self).wf(),
            final(self).spec_full() == old(self).spec_full(),
            final(self).limit() == old(self).limit(),
            exists|left: T, rest: Map<Seq<char>, Bucket<T>>|
                {
                    &&& call_ensures(spend, old(self).bucket_of(key@, now), (left, r))
                    &&& #[trigger] room_made(old(self)@, key@, old(self).limit(), rest)
                    &&& final(self)@ == #[trigger] rest.insert(
                        key@,
                        Bucket { content: left, last_refill: now },
                    )
                },
    {
        let ghost before = self@;
        if !self.buckets.contains(key) && self.buckets.len() >= self.max_tracked_keys {
            self.evict_least_recently_seen();
        }
        let ghost rest = self@;
        assert(room_made(before, key@, self.limit(), rest));
        let (content, waited): (T, u64) = match self.buckets.get(key) {
            Some(bucket) => (bucket.content, now.saturating_sub(bucket.last_refill)),
            None => (self.full, 0),
        };
        assert((content, waited) == old(self).bucket_of(key@, now));
        let (left, allowed): (T, bool) = spend(content, waited);
        self.buckets.insert(key.to_owned(), Bucket { content: left, last_refill: now });
        allowed
    }

    /// Takes out one of the keys that were not seen for longest, if there
    /// are any.
    fn evict_least_recently_seen(&mut self)
        requires
            old(self).wf(),
        ensures
            final(self).wf(),
            final(self).spec_full() == old(self).spec_full(),
            final(self).limit() == old(self).limit(),
            if old(self)@.dom().len() > 0 {
                exists|gone: Seq<char>| #[trigger]
                    seen_longest_ago(old(self)@, gone) && final(self)@ == old(self)@.remove(gone)
            } else {
                final(self)@ == old(self)@
            },
    {
        let count: usize = self.buckets.len();
        if count == 0 {
            return ;
        }
        let ghost order = self.buckets.order();
        proof {
            self.buckets.lemma_order();
        }
        let mut oldest: usize = 0;
        let mut least: u64 = self.last_refill_at(0);
        let mut i: usize = 1;
        while i < count
            invariant
                *self == *old(self),
                self.wf(),
                order == self.buckets.order(),
                1 <= i <= count == order.len(),
                oldest < i,
                forall|j: int| 0 <= j < count ==> self@.contains_key(#[trigger] order[j]),
                least == self@[order[oldest as int]].last_refill,
                forall|j: int| 0 <= j < i ==> least <= self@[#[trigger] order[j]].last_refill,
            decreases count - i,
        {
            let other: u64 = self.last_refill_at(i);
            if other < least {
                least = other;
                oldest = i;
            }
            i = i + 1;
        }
        let gone = self.buckets.key_at(oldest).clone();
        proof {
            assert forall|k: Seq<char>| #[trigger] self@.contains_key(k) implies self@[gone@].last_refill
                <= self@[k].last_refill by {
                assert(order.contains(k));
                let j = choose|j: int| 0 <= j < order.len() && order[j] == k;
                assert(self@[order[j]].last_refill >= least);
            }
            assert(seen_longest_ago(self@, gone@));
        }
        self.buckets.remove(gone.as_str());
    }

    /// When the key at an index of the order was last seen.
    fn last_refill_at(&self, i: usize) -> (r: u64)
        requires
            self.wf(),
            i < self.buckets.order().len(),
        ensures
            self@.contains_key(self.buckets.order()[i as int]),
            r == self@[self.buckets.order()[i as int]].last_refill,
    {
        match self.buckets.get(self.buckets.key_at(i).as_str()) {
            Some(bucket) => bucket.last_refill,
            None => 0,
        }
    }

    /// Drops every key that was not seen within `max_age`. The number of
    /// keys is bounded without this; it keeps them to those in use.
    pub fn prune_older_than(&mut self, max_age: u64, now: u64)
        requires
            old(self).wf(),
        ensures
            final(self).wf(),
            final(self).spec_full() == old(self).spec_full(),
            final(self).limit() == old(self).limit(),
            final(self)@ == Map::new(
                |k: Seq<char>|
                    old(self)@.contains_key(k) && elapsed(old(self)@[k].last_refill, now)
                        < max_age,
                |k: Seq<char>| old(self)@[k],
            ),
    {
        let ghost before = self@;
        let ghost order = self.buckets.order();
        let count: usize = self.buckets.len();
        proof {
            self.buckets.lemma_order();
        }
        let mut keys: Vec<String> = Vec::new();
        let mut i: usize = 0;
        while i < count
            invariant
                self.wf(),
                order == self.buckets.order(),
                i <= count == order.len(),
                keys@.len() == i,
                forall|j: int| 0 <= j < i ==> (#[trigger] keys@[j])@ == order[j],
            decreases count - i,
        {
            keys.push(self.buckets.key_at(i).clone());
            i = i + 1;
        }
        let mut j: usize = 0;
        assert forall|k: Seq<char>| #[trigger] before.contains_key(k) implies exists|m: int|
            0 <= m < order.len() && #[trigger] order[m] == k by {
            assert(order.contains(k));
        }
        while j < keys.len()
            invariant
                j <= keys@.len() == order.len(),
                order.no_duplicates(),
                forall|k: int| 0 <= k < keys@.len() ==> (#[trigger] keys@[k])@ == order[k],
                forall|k: int| 0 <= k < order.len() ==> before.contains_key(#[trigger] order[k]),
                self.wf(),
                self.full == old(self).full,
                self.max_tracked_keys == old(self).max_tracked_keys,
                forall|k: Seq<char>| #[trigger]
                    self@.contains_key(k) <==> before.contains_key(k) && (elapsed(
                        before[k].last_refill,
                        now,
                    ) < max_age || (exists|m: int| j <= m < order.len() && #[trigger] order[m]
                        == k)),
                forall|k: Seq<char>| #[trigger] self@.contains_key(k) ==> self@[k] == before[k],
            decreases keys.len() - j,
        {
            let ghost this = order[j as int];
            let ghost held = self@;
            assert(order[j as int] == this);
            assert(held.contains_key(this));
            let stale: bool = match self.buckets.get(keys[j].as_str()) {
                Some(bucket) => now.saturating_sub(bucket.last_refill) >= max_age,
                None => false,
            };
            if stale {
                self.buckets.remove(keys[j].as_str());
            }
            proof {
                assert forall|k: Seq<char>| #[trigger] self@.contains_key(k) <==> (
                before.contains_key(k) && (elapsed(before[k].last_refill, now) < max_age || (
                exists|m: int| j + 1 <= m < order.len() && #[trigger] order[m] == k))) by {
                    if k == this {
                        assert(forall|m: int| j + 1 <= m < order.len() ==> order[m] != this);
                    } else {
                        assert(self@.contains_key(k) <==> held.contains_key(k));
                        if exists|m: int| j <= m < order.len() && #[trigger] order[m] == k {
                            let m = choose|m: int| j <= m < order.len() && #[trigger] order[m] == k;
                            assert(m != j);
                            assert(order[m] == k);
                        }
                        if exists|m: int| j + 1 <= m < order.len() && #[trigger] order[m] == k {
                            let m = choose|m: int|
                                j + 1 <= m < order.len() && #[trigger] order[m] == k;
                            assert(order[m] == k);
                        }
                    }
                }
            }
            j = j + 1;
        }
        assert(self@ =~= Map::new(
            |k: Seq<char>|
                before.contains_key(k) && elapsed(before[k].last_refill, now) < max_age,
            |k: Seq<char>| before[k],
        ));
    }

    /// How many keys are tracked.
    pub fn tracked_keys(&self) -> (r: usize)
        requires
            self.wf(),
        ensures
            r == self@.dom().len(),
            self@.dom().finite(),
    {
        self.buckets.len()
    }

    /// Whether a key is tracked.
    pub fn is_tracked(&self, key: &str) -> (r: bool)
        ensures
            r == self@.contains_key(key@),
    {
        self.buckets.contains(key)
    }
}

// ---------------------------------------------------------------------
// Laws
// ---------------------------------------------------------------------

/// The number of tracked keys never exceeds the limit (or one, where the
/// limit is none), however the requests come.
pub proof fn law_tracked_keys_bounded<T>(
    before: Map<Seq<char>, Bucket<T>>,
    key: Seq<char>,
    max_tracked_keys: usize,
    rest: Map<Seq<char>, Bucket<T>>,
    bucket: Bucket<T>,
)
    requires
        before.dom().finite(),
        before.dom().len() <= max_tracked_keys || before.dom().len() <= 1,
        room_made(before, key, max_tracked_keys, rest),
    ensures
        rest.insert(key, bucket).dom().finite(),
        rest.insert(key, bucket).dom().len() <= max_tracked_keys || rest.insert(
            key,
            bucket,
        ).dom().len() <= 1,
{
    let after = rest.insert(key, bucket);
    if before.contains_key(key) {
        assert(after.dom() =~= before.dom());
    } else if before.dom().len() >= max_tracked_keys && before.dom().len() > 0 {
        let gone = choose|gone: Seq<char>| #[trigger]
            seen_longest_ago(before, gone) && rest == before.remove(gone);
        assert(after.dom() =~= before.dom().remove(gone).insert(key));
    } else {
        assert(after.dom() =~= before.dom().insert(key));
    }
}

/// A request of one key leaves the buckets of all other keys that stay
/// tracked as they are.
pub proof fn law_keys_independent<T>(
    before: Map<Seq<char>, Bucket<T>>,
    key: Seq<char>,
    max_tracked_keys: usize,
    rest: Map<Seq<char>, Bucket<T>>,
    bucket: Bucket<T>,
    other: Seq<char>,
)
    requires
        room_made(before, key, max_tracked_keys, rest),
        other != key,
        rest.insert(key, bucket).contains_key(other),
    ensures
        before.contains_key(other),
        rest.insert(key, bucket)[other] == before[other],
{
}

/// The time that has passed takes the clock from the last reading to this
/// one, and is none where the clock shows less.
pub proof fn law_elapsed_leads_to_now(last: u64, now: u64)
    ensures
        last <= now ==> last + elapsed(last, now) == now,
        now <= last ==> elapsed(last, now) == 0,
{
}

/// Room is made only for a new key where as many are tracked as may be. Then
/// one key goes, and it was seen no later than any other; the rest stays as it
/// is.
pub proof fn law_oldest_makes_room<T>(
    before: Map<Seq<char>, Bucket<T>>,
    key: Seq<char>,
    max_tracked_keys: usize,
    after: Map<Seq<char>, Bucket<T>>,
)
    requires
        before.dom().finite(),
        room_made(before, key, max_tracked_keys, after),
    ensures
        before.contains_key(key) || before.dom().len() < max_tracked_keys ==> after == before,
        !before.contains_key(key) && 0 < before.dom().len() && before.dom().len()
            >= max_tracked_keys ==> exists|gone: Seq<char>|
            #![trigger before.contains_key(gone)]
            {
                &&& before.contains_key(gone)
                &&& forall|k: Seq<char>| #[trigger]
                    before.contains_key(k) ==> before[gone].last_refill <= before[k].last_refill
                &&& after == before.remove(gone)
            },
{
    if !before.contains_key(key) && 0 < before.dom().len() && before.dom().len()
        >= max_tracked_keys {
        let gone = choose|gone: Seq<char>| #[trigger]
            seen_longest_ago(before, gone) && after == before.remove(gone);
        assert(before.contains_key(gone));
    }
}

/// What is spent from is the key's own bucket with the time since it was last
/// spent from, and a full one where the key is new.
pub proof fn law_bucket_is_own<T: Copy>(limiter: RateLimiter<T>, key: Seq<char>, now: u64)
    ensures
        limiter@.contains_key(key) ==> limiter.bucket_of(key, now).0 == limiter@[key].content,
        limiter@.contains_key(key) && limiter@[key].last_refill <= now ==> limiter.bucket_of(
            key,
            now,
        ).1 == now - limiter@[key].last_refill,
        limiter@.contains_key(key) && limiter@[key].last_refill > now ==> limiter.bucket_of(
            key,
            now,
        ).1 == 0,
        !limiter@.contains_key(key) ==> limiter.bucket_of(key, now) == (limiter.spec_full(), 0u64),
{
}

} // verus!
