//! Liveness.
//!
//! A client keeps its registrations only as long as its host answers a
//! liveness probe within [`LIVENESS_WINDOW_MILLIS`] of a trusted clock.
//! Missing the window releases every domain that the host holds.

use std::time::{Duration, SystemTime, UNIX_EPOCH};
use vstd::prelude::*;
use crate::client::ClientIdentity;
use crate::table::StringTable;
use crate::text::texts;

verus! {

/// The longest gap between two probes before a host's registrations count
/// as abandoned: one minute.
pub const LIVENESS_WINDOW_MILLIS: u64 = 60_000;

/// How many live registrations one verified host may hold.
pub const MAX_REGISTRATIONS_PER_CLIENT: usize = 5;

// ---------------------------------------------------------------------
// Clocks
// ---------------------------------------------------------------------

/// A source of trusted wall-clock time.
pub trait TimeSource: Send + Sync {
    /// Milliseconds since the Unix epoch, by a trusted clock.
    fn now_millis(&self) -> u64;
}

/// The clock of the operating system, as it is. For development; a node
/// should use a clock that is checked against others.
#[derive(Debug, Clone, Copy)]
pub struct SystemTimeSource;

/// A clock that is advanced by hand.
#[derive(Debug)]
pub struct MockTimeSource {
    millis: u64,
}

/// `SystemTime`, a reading of the operating system's clock. Nothing is known
/// of a value.
#[verifier::external_type_specification]
#[verifier::external_body]
pub struct ExSystemTime(SystemTime);

/// `SystemTime::now` reads the clock. Nothing is said of the reading.
pub assume_specification[ SystemTime::now ]() -> (r: SystemTime)
;

/// `SystemTime::duration_since` of a reading and the Unix epoch; `None` where
/// the reading is earlier. Nothing is said of the length.
#[verifier::external_body]
pub(crate) fn since_epoch(reading: SystemTime) -> (r: Option<Duration>) {
    reading.duration_since(UNIX_EPOCH).ok()
}

/// `Duration::as_millis`. Nothing is said of the number.
pub assume_specification[ Duration::as_millis ](d: &Duration) -> (r: u128)
;

/// Whether `millis` is what the operating system's clock may show: the whole
/// milliseconds from the Unix epoch to a reading of it (modulo 2^64), or zero
/// where the reading is earlier.
pub closed spec fn system_shows(millis: u64) -> bool {
    exists|reading: SystemTime, elapsed: Option<Duration>|
        {
            &&& call_ensures(SystemTime::now, (), reading)
            &&& #[trigger] call_ensures(since_epoch, (reading,), elapsed)
            &&& is_millis_of(elapsed, millis)
        }
}

/// Whether `millis` is the length of a time in whole milliseconds (modulo
/// 2^64), or zero where there is none.
spec fn is_millis_of(elapsed: Option<Duration>, millis: u64) -> bool {
    match elapsed {
        Some(length) => exists|whole: u128| #[trigger]
            call_ensures(Duration::as_millis, (&length,), whole) && millis == whole as u64,
        None => millis == 0,
    }
}

/// What the operating system's clock shows: milliseconds since the Unix
/// epoch, or zero before it.
pub(crate) fn system_millis() -> (r: u64)
    ensures
        system_shows(r),
{
    let reading = SystemTime::now();
    let elapsed = since_epoch(reading);
    assert(call_ensures(since_epoch, (reading,), elapsed));
    match elapsed {
        Some(length) => {
            let whole: u128 = length.as_millis();
            assert(call_ensures(Duration::as_millis, (&length,), whole));
            assert(is_millis_of(elapsed, whole as u64));
            whole as u64
        },
        None => 0,
    }
}

impl Default for SystemTimeSource {
    fn default() -> (r: Self)
        ensures
            r == SystemTimeSource,
    {
        SystemTimeSource
    }
}

impl TimeSource for SystemTimeSource {
    fn now_millis(&self) -> (r: u64)
        ensures
            system_shows(r),
    {
        system_millis()
    }
}

impl MockTimeSource {
    /// What the clock shows.
    pub closed spec fn reading(self) -> u64 {
        self.millis
    }

    /// A clock that shows `start_millis`.
    pub fn new(start_millis: u64) -> (r: Self)
        ensures
            r.reading() == start_millis,
    {
        MockTimeSource { millis: start_millis }
    }

    /// Puts the clock forward. It wraps around at the end of its range.
    pub fn advance(&mut self, delta_millis: u64)
        ensures
            final(self).reading() == (old(self).reading() + delta_millis) % 0x1_0000_0000_0000_0000,
    {
        self.millis = self.millis.wrapping_add(delta_millis);
    }
}

impl Default for MockTimeSource {
    fn default() -> (r: Self)
        ensures
            r.reading() == 0,
    {
        Self::new(0)
    }
}

impl TimeSource for MockTimeSource {
    fn now_millis(&self) -> (r: u64)
        ensures
            r == self.reading(),
    {
        self.millis
    }
}

/// Whether `now` is a value that the clock may show.
pub open spec fn shows<T: TimeSource>(time: &T, now: u64) -> bool {
    call_ensures(T::now_millis, (time,), now)
}

// ---------------------------------------------------------------------
// The tracker
// ---------------------------------------------------------------------

/// When each host was last seen and how many registrations it was given.
/// Hosts stand under their canonical names, so a new key on the same host
/// shares the host's entry.
pub struct LivenessTracker {
    last_seen_millis: StringTable<u64>,
    registration_counts: StringTable<usize>,
}

/// Whether a probe at `last` still counts at `now`.
pub open spec fn within_window(last: u64, now: u64) -> bool {
    now - last <= LIVENESS_WINDOW_MILLIS
}

/// Whether a probe at `last` still counts at `now`.
fn is_within_window(last: u64, now: u64) -> (r: bool)
    ensures
        r == within_window(last, now),
{
    now.saturating_sub(last) <= LIVENESS_WINDOW_MILLIS
}

impl LivenessTracker {
    /// The time of the last probe of each host.
    pub closed spec fn seen(self) -> Map<Seq<char>, u64> {
        self.last_seen_millis@
    }

    /// The number of registrations of each host that was given one.
    pub closed spec fn counts(self) -> Map<Seq<char>, usize> {
        self.registration_counts@
    }

    /// Both tables are in order.
    pub closed spec fn wf(self) -> bool {
        self.last_seen_millis.wf() && self.registration_counts.wf()
    }

    /// How many registrations a host was given.
    pub open spec fn count_of(self, host: Seq<char>) -> usize {
        if self.counts().contains_key(host) {
            self.counts()[host]
        } else {
            0
        }
    }

    /// Whether a host has probed within the window.
    pub open spec fn live(self, host: Seq<char>, now: u64) -> bool {
        self.seen().contains_key(host) && within_window(self.seen()[host], now)
    }

    /// Whether a host has probed, but not within the window.
    pub open spec fn expired(self, host: Seq<char>, now: u64) -> bool {
        self.seen().contains_key(host) && !within_window(self.seen()[host], now)
    }

    /// A tracker that knows nobody.
    pub fn new() -> (r: Self)
        ensures
            r.wf(),
            r.seen() == Map::<Seq<char>, u64>::empty(),
            r.counts() == Map::<Seq<char>, usize>::empty(),
    {
        LivenessTracker {
            last_seen_millis: StringTable::new(),
            registration_counts: StringTable::new(),
        }
    }

    /// Records a probe of the client's host at `now`.
    pub fn record_probe_at(&mut self, client: &ClientIdentity, now: u64)
        requires
            old(self).wf(),
        ensures
            final(self).wf(),
            final(self).seen() == old(self).seen().insert(client.spec_quota_key(), now),
            final(self).counts() == old(self).counts(),
    {
        self.last_seen_millis.insert(client.quota_key(), now);
    }

    /// Records a probe of the client's host at the current time.
    pub fn record_probe<T: TimeSource>(&mut self, client: &ClientIdentity, time: &T)
        requires
            old(self).wf(),
        ensures
            final(self).wf(),
            exists|now: u64| #[trigger]
                shows(time, now) && final(self).seen() == old(self).seen().insert(
                    client.spec_quota_key(),
                    now,
                ),
            final(self).counts() == old(self).counts(),
    {
        let now: u64 = time.now_millis();
        assert(shows(time, now));
        self.record_probe_at(client, now);
    }

    /// Whether the client's host has probed within the window. A host that
    /// never probed is not live.
    pub fn is_live_at(&self, client: &ClientIdentity, now: u64) -> (r: bool)
        requires
            self.wf(),
        ensures
            r == self.live(client.spec_quota_key(), now),
    {
        match self.last_seen_millis.get(client.quota_key().as_str()) {
            Some(last) => is_within_window(*last, now),
            None => false,
        }
    }

    /// Whether the client's host has probed within the window of the
    /// current time.
    pub fn is_live<T: TimeSource>(&self, client: &ClientIdentity, time: &T) -> (r: bool)
        requires
            self.wf(),
        ensures
            exists|now: u64| #[trigger]
                shows(time, now) && r == self.live(client.spec_quota_key(), now),
    {
        let now: u64 = time.now_millis();
        assert(shows(time, now));
        self.is_live_at(client, now)
    }

    /// How many registrations the client's host was given.
    pub fn registration_count(&self, client: &ClientIdentity) -> (r: usize)
        requires
            self.wf(),
        ensures
            r == self.count_of(client.spec_quota_key()),
    {
        match self.registration_counts.get(client.quota_key().as_str()) {
            Some(count) => *count,
            None => 0,
        }
    }

    /// Whether the client may register one more domain: its host is live
    /// and below the limit.
    pub fn can_register_at(&self, client: &ClientIdentity, now: u64) -> (r: bool)
        requires
            self.wf(),
        ensures
            r == (self.live(client.spec_quota_key(), now) && self.count_of(client.spec_quota_key())
                < MAX_REGISTRATIONS_PER_CLIENT),
    {
        self.is_live_at(client, now) && self.registration_count(client)
            < MAX_REGISTRATIONS_PER_CLIENT
    }

    /// Whether the client may register one more domain at the current time.
    pub fn can_register<T: TimeSource>(&self, client: &ClientIdentity, time: &T) -> (r: bool)
        requires
            self.wf(),
        ensures
            exists|now: u64| #[trigger]
                shows(time, now) && r == (self.live(client.spec_quota_key(), now)
                    && self.count_of(client.spec_quota_key()) < MAX_REGISTRATIONS_PER_CLIENT),
    {
        let now: u64 = time.now_millis();
        assert(shows(time, now));
        self.can_register_at(client, now)
    }

    /// Gives the client's host one more registration. The caller has checked
    /// that it may have it.
    pub fn increment_registration(&mut self, client: &ClientIdentity)
        requires
            old(self).wf(),
            old(self).count_of(client.spec_quota_key()) < usize::MAX,
        ensures
            final(self).wf(),
            final(self).seen() == old(self).seen(),
            final(self).counts() == old(self).counts().insert(
                client.spec_quota_key(),
                (old(self).count_of(client.spec_quota_key()) + 1) as usize,
            ),
    {
        let count: usize = self.registration_count(client);
        self.registration_counts.insert(client.quota_key(), count + 1);
    }

    /// Takes all registrations from the client's host.
    pub fn clear_registrations(&mut self, client: &ClientIdentity)
        requires
            old(self).wf(),
        ensures
            final(self).wf(),
            final(self).seen() == old(self).seen(),
            final(self).counts() == old(self).counts().remove(client.spec_quota_key()),
    {
        self.registration_counts.remove(client.quota_key().as_str());
    }

    /// Forgets a host, by its canonical name: both its registrations and
    /// when it was seen. Without this a host that comes back after a while
    /// would still be charged with the domains that were taken from it.
    pub fn forget_client_by_key(&mut self, key: &str)
        requires
            old(self).wf(),
        ensures
            final(self).wf(),
            final(self).seen() == old(self).seen().remove(key@),
            final(self).counts() == old(self).counts().remove(key@),
    {
        self.registration_counts.remove(key);
        self.last_seen_millis.remove(key);
    }

    /// Every host that has missed its window at `now`, each once.
    pub fn expired_clients_at(&self, now: u64) -> (r: Vec<String>)
        requires
            self.wf(),
        ensures
            texts(r@).no_duplicates(),
            forall|host: Seq<char>| #[trigger]
                texts(r@).contains(host) <==> self.expired(host, now),
    {
        let ghost order = self.last_seen_millis.order();
        let mut out: Vec<String> = Vec::new();
        let mut i: usize = 0;
        let count: usize = self.last_seen_millis.len();
        proof {
            self.last_seen_millis.lemma_order();
        }
        while i < count
            invariant
                self.wf(),
                order == self.last_seen_millis.order(),
                order.no_duplicates(),
                i <= count == order.len(),
                texts(out@).no_duplicates(),
                forall|host: Seq<char>| #[trigger]
                    texts(out@).contains(host) <==> (exists|j: int|
                        0 <= j < i && #[trigger] order[j] == host) && self.expired(host, now),
            decreases count - i,
        {
            let key = self.last_seen_millis.key_at(i);
            let ghost before = texts(out@);
            let old_probe: bool = match self.last_seen_millis.get(key.as_str()) {
                Some(last) => !is_within_window(*last, now),
                None => false,
            };
            if old_probe {
                out.push(key.clone());
                proof {
                    let after = texts(out@);
                    assert(after =~= before.push(order[i as int]));
                    assert(!before.contains(order[i as int]));
                    assert forall|host: Seq<char>| after.contains(host) <==> (before.contains(host)
                        || host == order[i as int]) by {
                        if before.contains(host) {
                            let j = choose|j: int| 0 <= j < before.len() && before[j] == host;
                            assert(after[j] == host);
                        }
                        assert(after[before.len() as int] == order[i as int]);
                    }
                }
            }
            proof {
                let after = texts(out@);
                assert forall|host: Seq<char>| #[trigger] after.contains(host) <==> (exists|j: int|
                    0 <= j < i + 1 && #[trigger] order[j] == host) && self.expired(host, now) by {
                    assert(after.contains(host) <==> before.contains(host) || (old_probe && host
                        == order[i as int]));
                    if before.contains(host) {
                        let j = choose|j: int| 0 <= j < i && #[trigger] order[j] == host;
                        assert(order[j] == host);
                    }
                    if exists|j: int| 0 <= j < i + 1 && #[trigger] order[j] == host {
                        let j = choose|j: int| 0 <= j < i + 1 && #[trigger] order[j] == host;
                        if j < i {
                            assert(order[j] == host);
                        }
                    }
                }
            }
            i = i + 1;
        }
        proof {
            assert forall|host: Seq<char>| #[trigger] texts(out@).contains(host) <==> self.expired(
                host,
                now,
            ) by {
                if self.expired(host, now) {
                    assert(order.contains(host));
                    let j = choose|j: int| 0 <= j < order.len() && order[j] == host;
                    assert(order[j] == host);
                }
            }
        }
        out
    }

    /// Every host that has missed its window at the current time.
    pub fn expired_clients<T: TimeSource>(&self, time: &T) -> (r: Vec<String>)
        requires
            self.wf(),
        ensures
            texts(r@).no_duplicates(),
            exists|now: u64| #[trigger]
                shows(time, now) && (forall|host: Seq<char>| #[trigger]
                    texts(r@).contains(host) <==> self.expired(host, now)),
    {
        let now: u64 = time.now_millis();
        assert(shows(time, now));
        self.expired_clients_at(now)
    }
}

impl Default for LivenessTracker {
    fn default() -> (r: Self)
        ensures
            r.wf(),
            r.seen() == Map::<Seq<char>, u64>::empty(),
            r.counts() == Map::<Seq<char>, usize>::empty(),
    {
        Self::new()
    }
}

// ---------------------------------------------------------------------
// Laws
// ---------------------------------------------------------------------

/// A host that was seen is either live or expired, never both; one that was
/// never seen is neither.
pub proof fn law_live_or_expired(tracker: LivenessTracker, host: Seq<char>, now: u64)
    ensures
        tracker.seen().contains_key(host) <==> tracker.live(host, now) || tracker.expired(
            host,
            now,
        ),
        !(tracker.live(host, now) && tracker.expired(host, now)),
{
}

/// A probe keeps its host live for the whole window, and not longer.
pub proof fn law_probe_lasts_one_window(last: u64, now: u64)
    requires
        last <= now,
    ensures
        within_window(last, now) <==> now <= last + LIVENESS_WINDOW_MILLIS,
{
}

/// A host is live up to a minute after its last probe, and has expired from
/// then on; a clock that shows less than the probe leaves it live. A host
/// that never probed is neither.
pub proof fn law_live_for_a_minute(tracker: LivenessTracker, host: Seq<char>, now: u64)
    ensures
        tracker.live(host, now) <==> tracker.seen().contains_key(host) && now
            <= tracker.seen()[host] + 60_000,
        tracker.expired(host, now) <==> tracker.seen().contains_key(host) && now
            > tracker.seen()[host] + 60_000,
{
}

/// The count of a host is what is noted of it, and zero where nothing is; it
/// may reach five.
pub proof fn law_count_is_noted(tracker: LivenessTracker, host: Seq<char>)
    ensures
        tracker.counts().contains_key(host) ==> tracker.count_of(host) == tracker.counts()[host],
        !tracker.counts().contains_key(host) ==> tracker.count_of(host) == 0,
        MAX_REGISTRATIONS_PER_CLIENT == 5,
{
}

/// A clock shows only what it returns, and one that is advanced by hand only
/// its own reading.
pub proof fn law_shown_by_clock<T: TimeSource>(
    time: &T,
    now: u64,
    by_hand: &MockTimeSource,
    set: u64,
)
    requires
        shows(time, now),
        shows(by_hand, set),
    ensures
        call_ensures(T::now_millis, (time,), now),
        set == by_hand.reading(),
{
}

/// What counts as shown by the operating system's clock comes from a reading
/// of it: the milliseconds since the epoch, or zero where it is earlier.
pub(crate) proof fn law_system_time_is_read(millis: u64)
    requires
        system_shows(millis),
    ensures
        exists|reading: SystemTime, elapsed: Option<Duration>|
            {
                &&& call_ensures(SystemTime::now, (), reading)
                &&& #[trigger] call_ensures(since_epoch, (reading,), elapsed)
                &&& elapsed is None ==> millis == 0
                &&& elapsed matches Some(length) ==> exists|whole: u128| #[trigger]
                    call_ensures(Duration::as_millis, (&length,), whole) && millis == whole as u64
            },
{
    let (reading, elapsed) = choose|reading: SystemTime, elapsed: Option<Duration>|
        {
            &&& call_ensures(SystemTime::now, (), reading)
            &&& #[trigger] call_ensures(since_epoch, (reading,), elapsed)
            &&& is_millis_of(elapsed, millis)
        };
    assert(call_ensures(since_epoch, (reading,), elapsed));
}

} // verus!
