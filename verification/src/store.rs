//! The registration store: which domain is held by whom, in memory only.
//!
//! A registration lives as long as its owner's host keeps probing. A domain
//! whose owner goes stale falls back into the pool, for anyone to claim.

use vstd::prelude::*;
use crate::client::{canonical_host, canonical_host_text, client_key_of, ClientIdentity};
use crate::collision::{arbitrated, negotiate_locally};
use crate::domain::DomainName;
use crate::liveness::{
    shows, within_window, LivenessTracker, TimeSource, LIVENESS_WINDOW_MILLIS,
    MAX_REGISTRATIONS_PER_CLIENT,
};
use crate::table::StringTable;
use crate::text::{chars_of, find_char, index_from, string_between, texts};
use crate::token::{draw_nonce, drawn, same_token, RegistrationToken};
use crate::zone::Record;

verus! {

/// The current registration of a domain.
#[derive(Debug, PartialEq, Eq)]
pub struct Registration {
    pub client_key: String,
    pub token: RegistrationToken,
    pub records: Vec<Record>,
}

/// Why a registration was refused.
#[derive(Debug, Clone, Copy, PartialEq, Eq, Structural)]
pub enum RegistrationError {
    /// The client's host has not probed within the window.
    NotLive,
    /// The domain is held, or the client's host holds as many domains as it
    /// may.
    RegistrationLimitReached,
}

/// A registration as plain values.
pub struct Holding {
    pub client_key: Seq<char>,
    pub token: RegistrationToken,
    pub records: Seq<Record>,
}

impl View for Registration {
    type V = Holding;

    open spec fn view(&self) -> Holding {
        Holding { client_key: self.client_key@, token: self.token, records: self.records@ }
    }
}

impl Clone for Registration {
    fn clone(&self) -> (r: Self)
        ensures
            r@ == self@,
    {
        Registration {
            client_key: self.client_key.clone(),
            token: self.token,
            records: crate::zone::copy_records(&self.records),
        }
    }
}

impl RegistrationError {
    /// The message for people.
    pub open spec fn message(self) -> Seq<char> {
        match self {
            RegistrationError::NotLive =>
                "client is not currently live (must probe within the liveness window first)"@,
            RegistrationError::RegistrationLimitReached =>
                "client already holds the maximum number of registrations"@,
        }
    }

    /// The message for people.
    pub fn to_string(&self) -> (r: String)
        ensures
            r@ == self.message(),
    {
        match self {
            RegistrationError::NotLive =>
                "client is not currently live (must probe within the liveness window first)".to_owned(),
            RegistrationError::RegistrationLimitReached =>
                "client already holds the maximum number of registrations".to_owned(),
        }
    }
}

// ---------------------------------------------------------------------
// Owners and hosts
// ---------------------------------------------------------------------

/// The host of an owner: what stands behind the first `@` of the client key,
/// in canonical form. A key without one belongs to no host.
pub open spec fn owner_host(client_key: Seq<char>) -> Option<Seq<char>> {
    let cut = index_from(client_key, '@', 0);
    if cut < client_key.len() {
        Some(canonical_host(client_key.skip(cut + 1)))
    } else {
        None
    }
}

/// The host of an owner.
fn owner_host_text(client_key: &str) -> (r: Option<String>)
    ensures
        match r {
            Some(host) => owner_host(client_key@) == Some(host@),
            None => owner_host(client_key@) is None,
        },
{
    let chars = chars_of(client_key);
    let cut: usize = find_char(&chars, '@');
    if cut < chars.len() {
        let host = string_between(&chars, cut + 1, chars.len());
        assert(host@ =~= client_key@.skip(cut + 1));
        Some(canonical_host_text(host.as_str()))
    } else {
        None
    }
}

/// The owner of what a client registers is on the client's host.
pub proof fn lemma_owner_host(verifying_key: Seq<u8>, rdns: Seq<char>)
    ensures
        owner_host(client_key_of(verifying_key, rdns)) == Some(canonical_host(rdns)),
{
    let key = client_key_of(verifying_key, rdns);
    let k = 2 * verifying_key.len() as int;
    assert forall|i: int| 0 <= i < k implies key[i] != '@' by {
        assert(key[i] == crate::text::hex(verifying_key)[i]);
    }
    assert(key[k] == '@');
    crate::text::lemma_index_from(key, '@', 0, k);
    assert(key.skip(k + 1) =~= rdns);
}

// ---------------------------------------------------------------------
// The store as plain values
// ---------------------------------------------------------------------

/// What a store holds: the registration of each domain, when each host was
/// last seen, and how many registrations it was given.
#[verifier::ext_equal]
pub struct Registry {
    pub held: Map<Seq<char>, Holding>,
    pub seen: Map<Seq<char>, u64>,
    pub counts: Map<Seq<char>, usize>,
}

impl Registry {
    /// A store that holds nothing.
    pub open spec fn empty() -> Registry {
        Registry { held: Map::empty(), seen: Map::empty(), counts: Map::empty() }
    }

    /// Whether no domain is held.
    pub open spec fn is_blank(self) -> bool {
        forall|domain: Seq<char>| !#[trigger] self.held.contains_key(domain)
    }

    /// How many registrations a host was given.
    pub open spec fn count_of(self, host: Seq<char>) -> usize {
        if self.counts.contains_key(host) {
            self.counts[host]
        } else {
            0
        }
    }

    /// Whether a host has probed within the window.
    pub open spec fn live(self, host: Seq<char>, now: u64) -> bool {
        self.seen.contains_key(host) && within_window(self.seen[host], now)
    }

    /// Whether a host has probed, but not within the window.
    pub open spec fn expired(self, host: Seq<char>, now: u64) -> bool {
        self.seen.contains_key(host) && !within_window(self.seen[host], now)
    }

    /// Whether the host of an owner has missed its window.
    pub open spec fn owner_expired(self, client_key: Seq<char>, now: u64) -> bool {
        owner_host(client_key) matches Some(host) && self.expired(host, now)
    }

    /// The store with a probe of a host.
    pub open spec fn probed(self, host: Seq<char>, now: u64) -> Registry {
        Registry { seen: self.seen.insert(host, now), ..self }
    }

    /// The store without the registrations of hosts that have missed their
    /// window, and without any memory of these hosts.
    pub open spec fn reclaimed(self, now: u64) -> Registry {
        Registry {
            held: Map::new(
                |d: Seq<char>|
                    self.held.contains_key(d) && !self.owner_expired(self.held[d].client_key, now),
                |d: Seq<char>| self.held[d],
            ),
            seen: Map::new(
                |h: Seq<char>| self.seen.contains_key(h) && !self.expired(h, now),
                |h: Seq<char>| self.seen[h],
            ),
            counts: Map::new(
                |h: Seq<char>| self.counts.contains_key(h) && !self.expired(h, now),
                |h: Seq<char>| self.counts[h],
            ),
        }
    }

    /// The store with a claim on a domain in place of any other, and no
    /// records.
    pub open spec fn installed(
        self,
        domain: Seq<char>,
        client_key: Seq<char>,
        token: RegistrationToken,
    ) -> Registry {
        Registry {
            held: self.held.insert(
                domain,
                Holding { client_key, token, records: Seq::empty() },
            ),
            ..self
        }
    }

    /// Why a registration is refused, if it is. Stale registrations do not
    /// count any more.
    pub open spec fn refusal(self, domain: Seq<char>, host: Seq<char>, now: u64) -> Option<
        RegistrationError,
    > {
        if !self.live(host, now) {
            Some(RegistrationError::NotLive)
        } else if self.reclaimed(now).held.contains_key(domain) || self.count_of(host)
            >= MAX_REGISTRATIONS_PER_CLIENT {
            Some(RegistrationError::RegistrationLimitReached)
        } else {
            None
        }
    }

    /// The store after an attempt to register a domain.
    pub open spec fn registered(
        self,
        domain: Seq<char>,
        client_key: Seq<char>,
        host: Seq<char>,
        now: u64,
        nonce: [u8; 8],
    ) -> Registry {
        match self.refusal(domain, host, now) {
            Some(RegistrationError::NotLive) => self,
            Some(RegistrationError::RegistrationLimitReached) => self.reclaimed(now),
            None => {
                let token = RegistrationToken { issued_at_millis: now, nonce };
                let next = self.reclaimed(now).installed(domain, client_key, token);
                Registry {
                    counts: next.counts.insert(host, (self.count_of(host) + 1) as usize),
                    ..next
                }
            },
        }
    }

    /// The store after two claims on a domain were arbitrated.
    pub open spec fn collided(
        self,
        domain: Seq<char>,
        a: (Seq<char>, RegistrationToken),
        b: (Seq<char>, RegistrationToken),
    ) -> Registry {
        if arbitrated(a.1, b.1) == a.1 {
            self.installed(domain, a.0, a.1)
        } else {
            self.installed(domain, b.0, b.1)
        }
    }

    /// The store after a claim was learned from a peer.
    pub open spec fn adopted(
        self,
        domain: Seq<char>,
        client_key: Seq<char>,
        token: RegistrationToken,
    ) -> Registry {
        if !self.held.contains_key(domain) {
            self.installed(domain, client_key, token)
        } else {
            let known = self.held[domain];
            if known.client_key == client_key && known.token == token {
                self
            } else {
                self.collided(domain, (known.client_key, known.token), (client_key, token))
            }
        }
    }

    /// Whether a client key holds a domain.
    pub open spec fn owns(self, domain: Seq<char>, client_key: Seq<char>) -> bool {
        self.held.contains_key(domain) && self.held[domain].client_key == client_key
    }

    /// The store with new records for a domain.
    pub open spec fn published(self, domain: Seq<char>, records: Seq<Record>) -> Registry {
        Registry {
            held: self.held.insert(domain, Holding { records, ..self.held[domain] }),
            ..self
        }
    }
}

// ---------------------------------------------------------------------
// The store
// ---------------------------------------------------------------------

/// A domain with its registration.
struct Entry {
    domain: DomainName,
    registration: Registration,
}

/// The registration store of one node.
pub struct RegistryStore {
    registrations: StringTable<Entry>,
    liveness: LivenessTracker,
}

impl View for RegistryStore {
    type V = Registry;

    closed spec fn view(&self) -> Registry {
        Registry {
            held: Map::new(
                |d: Seq<char>| self.registrations@.contains_key(d),
                |d: Seq<char>| self.registrations@[d].registration@,
            ),
            seen: self.liveness.seen(),
            counts: self.liveness.counts(),
        }
    }
}

impl RegistryStore {
    /// Every registration stands under its own domain.
    pub closed spec fn wf(self) -> bool {
        &&& self.registrations.wf()
        &&& self.liveness.wf()
        &&& forall|d: Seq<char>| #[trigger]
            self.registrations@.contains_key(d) ==> self.registrations@[d].domain@ == d
    }

    /// The domains, in the order in which they are listed.
    pub closed spec fn order(self) -> Seq<Seq<char>> {
        self.registrations.order()
    }

    /// A store that holds nothing.
    pub fn new() -> (r: Self)
        ensures
            r.wf(),
            r@ == Registry::empty(),
    {
        let r = RegistryStore {
            registrations: StringTable::new(),
            liveness: LivenessTracker::new(),
        };
        assert(r@.held =~= Map::empty());
        r
    }

    /// Records a probe of the client's host at `now`.
    pub fn probe_at(&mut self, client: &ClientIdentity, now: u64)
        requires
            old(self).wf(),
        ensures
            final(self).wf(),
            final(self)@ == old(self)@.probed(client.spec_quota_key(), now),
            final(self).order() == old(self).order(),
    {
        self.liveness.record_probe_at(client, now);
        assert(self@.held =~= old(self)@.held);
    }

    /// Records a probe of the client's host at the current time.
    pub fn probe<T: TimeSource>(&mut self, client: &ClientIdentity, time: &T)
        requires
            old(self).wf(),
        ensures
            final(self).wf(),
            exists|now: u64| #[trigger]
                shows(time, now) && final(self)@ == old(self)@.probed(client.spec_quota_key(), now),
    {
        let now: u64 = time.now_millis();
        assert(shows(time, now));
        self.probe_at(client, now);
    }

    /// Puts a claim under a domain in place of any other, without records.
    fn install(&mut self, domain: DomainName, client_key: String, token: RegistrationToken)
        requires
            old(self).wf(),
        ensures
            final(self).wf(),
            final(self)@ == old(self)@.installed(domain@, client_key@, token),
            final(self).liveness == old(self).liveness,
    {
        let key = domain.to_string();
        let registration = Registration { client_key, token, records: Vec::new() };
        self.registrations.insert(key, Entry { domain, registration });
        proof {
            assert(registration.records@ =~= Seq::empty());
            assert(self@.held =~= old(self)@.installed(domain@, client_key@, token).held);
        }
    }

    /// Tries to register `domain` for `client` at `now`, with the given
    /// random bytes for the token.
    pub fn register_at(
        &mut self,
        domain: DomainName,
        client: &ClientIdentity,
        now: u64,
        nonce: [u8; 8],
    ) -> (r: Result<RegistrationToken, RegistrationError>)
        requires
            old(self).wf(),
        ensures
            final(self).wf(),
            final(self)@ == old(self)@.registered(
                domain@,
                client.spec_key(),
                client.spec_quota_key(),
                now,
                nonce,
            ),
            match r {
                Ok(token) => old(self)@.refusal(domain@, client.spec_quota_key(), now) is None
                    && token == (RegistrationToken { issued_at_millis: now, nonce }),
                Err(e) => old(self)@.refusal(domain@, client.spec_quota_key(), now) == Some(e),
            },
            old(self)@.held.contains_key(domain@) && (owner_host(
                old(self)@.held[domain@].client_key,
            ) matches Some(owner) ==> old(self)@.seen.contains_key(owner) ==> now
                <= old(self)@.seen[owner] + LIVENESS_WINDOW_MILLIS) ==> r is Err
                && final(self)@.held.contains_key(domain@) && final(self)@.held[domain@]
                == old(self)@.held[domain@],
    {
        let ghost host = client.spec_quota_key();
        if !self.liveness.is_live_at(client, now) {
            return Err(RegistrationError::NotLive);
        }
        self.reclaim_stale_at(now);
        let ghost mid = self@;
        assert(mid == old(self)@.reclaimed(now));
        assert(mid.live(host, now));
        assert(mid.count_of(host) == old(self)@.count_of(host));
        assert(self.liveness.count_of(host) == mid.count_of(host));
        if self.registrations.contains(domain.as_str()) {
            return Err(RegistrationError::RegistrationLimitReached);
        }
        if !self.liveness.can_register_at(client, now) {
            return Err(RegistrationError::RegistrationLimitReached);
        }
        let token = RegistrationToken { issued_at_millis: now, nonce };
        self.install(domain, client.key(), token);
        let ghost next = self@;
        self.liveness.increment_registration(client);
        assert(self@.held =~= next.held);
        Ok(token)
    }

    /// Tries to register `domain` for `client` at the current time.
    ///
    /// A free domain goes to the client, if its host is live and below the
    /// limit. A domain that another live client holds does not: two claims
    /// that nodes make at the same time are settled by
    /// [`RegistryStore::resolve_collision`].
    pub fn register<T: TimeSource>(
        &mut self,
        domain: DomainName,
        client: &ClientIdentity,
        time: &T,
    ) -> (r: Result<RegistrationToken, RegistrationError>)
        requires
            old(self).wf(),
        ensures
            final(self).wf(),
            exists|now: u64, nonce: [u8; 8]|
                #![trigger shows(time, now), old(self)@.registered(domain@, client.spec_key(), client.spec_quota_key(), now, nonce)]
                {
                    &&& shows(time, now)
                    &&& drawn(nonce)
                    &&& final(self)@ == old(self)@.registered(
                        domain@,
                        client.spec_key(),
                        client.spec_quota_key(),
                        now,
                        nonce,
                    )
                    &&& match r {
                        Ok(token) => old(self)@.refusal(domain@, client.spec_quota_key(), now)
                            is None && token == (RegistrationToken {
                            issued_at_millis: now,
                            nonce,
                        }),
                        Err(e) => old(self)@.refusal(domain@, client.spec_quota_key(), now)
                            == Some(e),
                    }
                },
    {
        let now: u64 = time.now_millis();
        assert(shows(time, now));
        let nonce = draw_nonce();
        self.register_at(domain, client, now, nonce)
    }

    /// Settles two claims on the same domain and installs the winner.
    pub fn resolve_collision(
        &mut self,
        domain: DomainName,
        a: (String, RegistrationToken),
        b: (String, RegistrationToken),
    )
        requires
            old(self).wf(),
        ensures
            final(self).wf(),
            final(self)@ == old(self)@.collided(domain@, (a.0@, a.1), (b.0@, b.1)),
            final(self)@.held.contains_key(domain@),
            final(self)@.held[domain@].records.len() == 0,
    {
        let winner_token = negotiate_locally(a.1, b.1);
        if same_token(&winner_token, &a.1) {
            self.install(domain, a.0, a.1);
        } else {
            self.install(domain, b.0, b.1);
        }
    }

    /// Publishes records for a domain that `client` holds. Changes nothing
    /// and returns `false` where it does not.
    pub fn set_records(
        &mut self,
        domain: &DomainName,
        client: &ClientIdentity,
        records: Vec<Record>,
    ) -> (r: bool)
        requires
            old(self).wf(),
        ensures
            final(self).wf(),
            r == old(self)@.owns(domain@, client.spec_key()),
            final(self)@ == (if r {
                old(self)@.published(domain@, records@)
            } else {
                old(self)@
            }),
    {
        let token = match self.registrations.get(domain.as_str()) {
            Some(entry) => {
                if entry.registration.client_key != client.key() {
                    return false;
                }
                entry.registration.token
            },
            None => {
                return false;
            },
        };
        let registration = Registration { client_key: client.key(), token, records };
        self.registrations.insert(
            domain.to_string(),
            Entry { domain: domain.clone(), registration },
        );
        assert(self@.held =~= old(self)@.published(domain@, records@).held);
        true
    }

    /// Learns from a peer that `domain` is held by `client_key` since
    /// `token`. The rules on liveness and number do not apply: they bind the
    /// registrations that this node issues. Against a different claim on the
    /// same domain the two are arbitrated.
    pub fn adopt_rumor(&mut self, domain: DomainName, client_key: String, token: RegistrationToken)
        requires
            old(self).wf(),
        ensures
            final(self).wf(),
            final(self)@ == old(self)@.adopted(domain@, client_key@, token),
            final(self)@.held.contains_key(domain@),
            !(old(self)@.held.contains_key(domain@) && old(self)@.held[domain@].client_key
                == client_key@ && old(self)@.held[domain@].token == token)
                ==> final(self)@.held[domain@].records.len() == 0,
    {
        let known = match self.registrations.get(domain.as_str()) {
            Some(entry) => {
                if entry.registration.client_key == client_key && same_token(
                    &entry.registration.token,
                    &token,
                ) {
                    return ;
                }
                Some((entry.registration.client_key.clone(), entry.registration.token))
            },
            None => None,
        };
        match known {
            Some(claim) => {
                self.resolve_collision(domain, claim, (client_key, token));
            },
            None => {
                self.install(domain, client_key, token);
            },
        }
    }

    /// Every claim that this node holds: domain, client key and token, each
    /// domain once.
    pub fn all_rumors(&self) -> (r: Vec<(DomainName, String, RegistrationToken)>)
        requires
            self.wf(),
        ensures
            r@.len() == self.order().len(),
            self.order().no_duplicates(),
            forall|d: Seq<char>| #[trigger]
                self.order().contains(d) <==> self@.held.contains_key(d),
            forall|i: int|
                0 <= i < r@.len() ==> {
                    let (domain, client_key, token) = #[trigger] r@[i];
                    &&& domain@ == self.order()[i]
                    &&& self@.held.contains_key(domain@)
                    &&& self@.held[domain@].client_key == client_key@
                    &&& self@.held[domain@].token == token
                },
    {
        let count: usize = self.registrations.len();
        let mut out: Vec<(DomainName, String, RegistrationToken)> = Vec::new();
        let mut i: usize = 0;
        while i < count
            invariant
                self.wf(),
                i <= count == self.registrations.order().len(),
                out@.len() == i,
                forall|j: int|
                    0 <= j < i ==> {
                        let (domain, client_key, token) = #[trigger] out@[j];
                        &&& domain@ == self.order()[j]
                        &&& self@.held.contains_key(domain@)
                        &&& self@.held[domain@].client_key == client_key@
                        &&& self@.held[domain@].token == token
                    },
            decreases count - i,
        {
            let key = self.registrations.key_at(i);
            match self.registrations.get(key.as_str()) {
                Some(entry) => {
                    out.push(
                        (
                            entry.domain.clone(),
                            entry.registration.client_key.clone(),
                            entry.registration.token,
                        ),
                    );
                },
                None => {
                    assert(false);
                },
            }
            i = i + 1;
        }
        proof {
            self.registrations.lemma_order();
        }
        out
    }

    /// Releases every registration of hosts that have missed their window at
    /// `now`, and forgets these hosts.
    pub fn reclaim_stale_at(&mut self, now: u64)
        requires
            old(self).wf(),
        ensures
            final(self).wf(),
            final(self)@ == old(self)@.reclaimed(now),
    {
        let ghost start = self@;
        let hosts = self.liveness.expired_clients_at(now);
        assert forall|host: Seq<char>| #[trigger] texts(hosts@).contains(host) <==> start.expired(
            host,
            now,
        ) by {
            assert(self.liveness.expired(host, now) == start.expired(host, now));
        }
        let doomed = self.stale_domains(&hosts, now);
        let ghost before = self.registrations@;
        let mut i: usize = 0;
        while i < doomed.len()
            invariant
                i <= doomed@.len(),
                self.wf(),
                self.liveness == old(self).liveness,
                forall|d: Seq<char>| #[trigger]
                    self.registrations@.contains_key(d) <==> before.contains_key(d)
                        && !texts(doomed@).take(i as int).contains(d),
                forall|d: Seq<char>| #[trigger]
                    self.registrations@.contains_key(d) ==> self.registrations@[d] == before[d],
            decreases doomed.len() - i,
        {
            let ghost prior = self.registrations@;
            let ghost done = texts(doomed@).take(i as int);
            self.registrations.remove(doomed[i].as_str());
            proof {
                let next = texts(doomed@).take(i + 1);
                assert(next =~= done.push(doomed@[i as int]@));
                assert forall|d: Seq<char>| next.contains(d) <==> (done.contains(d) || d
                    == doomed@[i as int]@) by {
                    if done.contains(d) {
                        let j = choose|j: int| 0 <= j < done.len() && done[j] == d;
                        assert(next[j] == d);
                    }
                    assert(next[i as int] == doomed@[i as int]@);
                }
            }
            i = i + 1;
        }
        assert(texts(doomed@).take(i as int) =~= texts(doomed@));
        let ghost mid = self.registrations;
        let mut j: usize = 0;
        while j < hosts.len()
            invariant
                j <= hosts@.len(),
                self.wf(),
                self.registrations == mid,
                forall|h: Seq<char>| #[trigger]
                    self.liveness.seen().contains_key(h) <==> start.seen.contains_key(h)
                        && !texts(hosts@).take(j as int).contains(h),
                forall|h: Seq<char>| #[trigger]
                    self.liveness.seen().contains_key(h) ==> self.liveness.seen()[h]
                        == start.seen[h],
                forall|h: Seq<char>| #[trigger]
                    self.liveness.counts().contains_key(h) <==> start.counts.contains_key(h)
                        && !texts(hosts@).take(j as int).contains(h),
                forall|h: Seq<char>| #[trigger]
                    self.liveness.counts().contains_key(h) ==> self.liveness.counts()[h]
                        == start.counts[h],
            decreases hosts.len() - j,
        {
            let ghost done = texts(hosts@).take(j as int);
            self.liveness.forget_client_by_key(hosts[j].as_str());
            proof {
                let next = texts(hosts@).take(j + 1);
                assert(next =~= done.push(hosts@[j as int]@));
                assert forall|h: Seq<char>| next.contains(h) <==> (done.contains(h) || h
                    == hosts@[j as int]@) by {
                    if done.contains(h) {
                        let k = choose|k: int| 0 <= k < done.len() && done[k] == h;
                        assert(next[k] == h);
                    }
                    assert(next[j as int] == hosts@[j as int]@);
                }
            }
            j = j + 1;
        }
        proof {
            assert(texts(hosts@).take(j as int) =~= texts(hosts@));
            let goal = start.reclaimed(now);
            assert(self@.held =~= goal.held);
            assert(self@.seen =~= goal.seen);
            assert(self@.counts =~= goal.counts);
        }
    }

    /// The domains whose owners' hosts are among `hosts`, which are those
    /// that have missed their window.
    fn stale_domains(&self, hosts: &Vec<String>, now: u64) -> (r: Vec<String>)
        requires
            self.wf(),
            forall|host: Seq<char>| #[trigger]
                texts(hosts@).contains(host) <==> self@.expired(host, now),
        ensures
            forall|d: Seq<char>| #[trigger]
                texts(r@).contains(d) <==> self@.held.contains_key(d) && self@.owner_expired(
                    self@.held[d].client_key,
                    now,
                ),
    {
        let mut stale: StringTable<bool> = StringTable::new();
        let mut k: usize = 0;
        while k < hosts.len()
            invariant
                k <= hosts@.len(),
                stale.wf(),
                forall|h: Seq<char>| #[trigger]
                    stale@.contains_key(h) <==> texts(hosts@).take(k as int).contains(h),
            decreases hosts.len() - k,
        {
            let ghost done = texts(hosts@).take(k as int);
            stale.insert(hosts[k].clone(), true);
            proof {
                let next = texts(hosts@).take(k + 1);
                assert(next =~= done.push(hosts@[k as int]@));
                assert forall|h: Seq<char>| next.contains(h) <==> (done.contains(h) || h
                    == hosts@[k as int]@) by {
                    if done.contains(h) {
                        let j = choose|j: int| 0 <= j < done.len() && done[j] == h;
                        assert(next[j] == h);
                    }
                    assert(next[k as int] == hosts@[k as int]@);
                }
            }
            k = k + 1;
        }
        assert(texts(hosts@).take(k as int) =~= texts(hosts@));
        let ghost order = self.registrations.order();
        let count: usize = self.registrations.len();
        proof {
            self.registrations.lemma_order();
        }
        let mut out: Vec<String> = Vec::new();
        let mut i: usize = 0;
        while i < count
            invariant
                self.wf(),
                order == self.registrations.order(),
                i <= count == order.len(),
                forall|h: Seq<char>| #[trigger]
                    stale@.contains_key(h) <==> self@.expired(h, now),
                forall|d: Seq<char>| #[trigger]
                    texts(out@).contains(d) <==> order.take(i as int).contains(d)
                        && self@.owner_expired(self@.held[d].client_key, now),
            decreases count - i,
        {
            let key = self.registrations.key_at(i);
            let ghost before = texts(out@);
            let ghost d0 = order[i as int];
            let gone: bool = match self.registrations.get(key.as_str()) {
                Some(entry) => match owner_host_text(entry.registration.client_key.as_str()) {
                    Some(host) => stale.contains(host.as_str()),
                    None => false,
                },
                None => false,
            };
            assert(gone == self@.owner_expired(self@.held[d0].client_key, now));
            if gone {
                out.push(key.clone());
            }
            proof {
                let after = texts(out@);
                let front = order.take(i as int);
                let next = order.take(i + 1);
                assert(next =~= front.push(d0));
                if gone {
                    assert(after =~= before.push(d0));
                }
                assert forall|d: Seq<char>| #[trigger] after.contains(d) <==> next.contains(d)
                    && self@.owner_expired(self@.held[d].client_key, now) by {
                    if front.contains(d) {
                        let j = choose|j: int| 0 <= j < front.len() && front[j] == d;
                        assert(next[j] == d);
                    }
                    assert(next[i as int] == d0);
                    if gone {
                        if before.contains(d) {
                            let j = choose|j: int| 0 <= j < before.len() && before[j] == d;
                            assert(after[j] == d);
                        }
                        assert(after[before.len() as int] == d0);
                    }
                }
            }
            i = i + 1;
        }
        assert(order.take(i as int) =~= order);
        out
    }

    /// Releases every registration of hosts that have missed their window at
    /// the current time.
    pub fn reclaim_stale<T: TimeSource>(&mut self, time: &T)
        requires
            old(self).wf(),
        ensures
            final(self).wf(),
            exists|now: u64| #[trigger]
                shows(time, now) && final(self)@ == old(self)@.reclaimed(now),
    {
        let now: u64 = time.now_millis();
        assert(shows(time, now));
        self.reclaim_stale_at(now);
    }

    /// The current registration of `domain`, if there is one.
    pub fn lookup(&self, domain: &DomainName) -> (r: Option<&Registration>)
        requires
            self.wf(),
        ensures
            match r {
                Some(registration) => self@.held.contains_key(domain@) && registration@
                    == self@.held[domain@],
                None => !self@.held.contains_key(domain@),
            },
    {
        match self.registrations.get(domain.as_str()) {
            Some(entry) => Some(&entry.registration),
            None => None,
        }
    }
}

impl Default for RegistryStore {
    fn default() -> (r: Self)
        ensures
            r.wf(),
            r@ == Registry::empty(),
    {
        Self::new()
    }
}

// ---------------------------------------------------------------------
// Laws
// ---------------------------------------------------------------------

impl Registry {
    /// The domains that a host holds.
    pub open spec fn domains_of(self, host: Seq<char>) -> Set<Seq<char>> {
        Set::new(
            |d: Seq<char>|
                self.held.contains_key(d) && owner_host(self.held[d].client_key) == Some(host),
        )
    }

    /// Whether a host holds no more domains than it was given, and was given
    /// no more than it may have.
    pub open spec fn host_capped(self, host: Seq<char>) -> bool {
        &&& self.domains_of(host).finite()
        &&& self.domains_of(host).len() <= self.count_of(host)
        &&& self.count_of(host) <= MAX_REGISTRATIONS_PER_CLIENT
    }

    /// Whether no host was given more than it may have.
    pub open spec fn counted(self) -> bool {
        forall|host: Seq<char>| #[trigger] self.count_of(host) <= MAX_REGISTRATIONS_PER_CLIENT
    }

    /// Whether no host holds more than it may.
    pub open spec fn capped(self) -> bool {
        forall|host: Seq<char>| #[trigger] self.host_capped(host)
    }
}

/// No host holds more domains than the limit allows.
pub proof fn law_limit_per_host(r: Registry, host: Seq<char>)
    requires
        r.capped(),
    ensures
        r.domains_of(host).finite(),
        r.domains_of(host).len() <= MAX_REGISTRATIONS_PER_CLIENT,
{
    assert(r.host_capped(host));
}

/// A new store keeps the limit.
pub proof fn law_empty_capped()
    ensures
        Registry::empty().capped(),
        Registry::empty().counted(),
{
    assert forall|host: Seq<char>| #[trigger] Registry::empty().host_capped(host) by {
        assert(Registry::empty().domains_of(host) =~= Set::empty());
    }
}

/// A probe keeps the limit.
pub proof fn law_probe_capped(r: Registry, host: Seq<char>, now: u64)
    requires
        r.capped(),
    ensures
        r.probed(host, now).capped(),
{
    let after = r.probed(host, now);
    assert forall|h: Seq<char>| #[trigger] after.host_capped(h) by {
        assert(r.host_capped(h));
        assert(after.domains_of(h) =~= r.domains_of(h));
    }
}

/// Publishing records keeps the limit.
pub proof fn law_publish_capped(r: Registry, domain: Seq<char>, records: Seq<Record>)
    requires
        r.capped(),
        r.held.contains_key(domain),
    ensures
        r.published(domain, records).capped(),
{
    let after = r.published(domain, records);
    assert forall|h: Seq<char>| #[trigger] after.host_capped(h) by {
        assert(r.host_capped(h));
        assert(after.domains_of(h) =~= r.domains_of(h));
    }
}

/// Reclaiming keeps the limit.
pub proof fn law_reclaim_capped(r: Registry, now: u64)
    requires
        r.capped(),
    ensures
        r.reclaimed(now).capped(),
{
    let after = r.reclaimed(now);
    assert forall|h: Seq<char>| #[trigger] after.host_capped(h) by {
        assert(r.host_capped(h));
        if r.expired(h, now) {
            assert(after.domains_of(h) =~= Set::empty());
        } else {
            assert(after.domains_of(h) =~= r.domains_of(h));
        }
    }
}

/// An attempt to register keeps the limit, whatever comes of it.
pub proof fn law_register_capped(
    r: Registry,
    domain: Seq<char>,
    verifying_key: Seq<u8>,
    rdns: Seq<char>,
    now: u64,
    nonce: [u8; 8],
)
    requires
        r.capped(),
    ensures
        r.registered(
            domain,
            client_key_of(verifying_key, rdns),
            canonical_host(rdns),
            now,
            nonce,
        ).capped(),
{
    let key = client_key_of(verifying_key, rdns);
    let host = canonical_host(rdns);
    let mid = r.reclaimed(now);
    let after = r.registered(domain, key, host, now, nonce);
    law_reclaim_capped(r, now);
    lemma_owner_host(verifying_key, rdns);
    if r.refusal(domain, host, now) is None {
        assert(mid.count_of(host) == r.count_of(host));
        assert forall|h: Seq<char>| #[trigger] after.host_capped(h) by {
            assert(mid.host_capped(h));
            if h == host {
                assert(after.domains_of(h) =~= mid.domains_of(h).insert(domain));
            } else {
                assert(after.domains_of(h) =~= mid.domains_of(h));
            }
        }
    }
}

/// A domain stays with its owner as long as the owner's host is live.
pub proof fn law_live_owner_keeps_domain(
    r: Registry,
    domain: Seq<char>,
    host: Seq<char>,
    now: u64,
)
    requires
        r.held.contains_key(domain),
        owner_host(r.held[domain].client_key) == Some(host),
        r.live(host, now),
    ensures
        r.reclaimed(now).held.contains_key(domain),
        r.reclaimed(now).held[domain] == r.held[domain],
{
}

/// A domain whose owner's host has missed the window falls back into the
/// pool.
pub proof fn law_stale_owner_loses_domain(
    r: Registry,
    domain: Seq<char>,
    host: Seq<char>,
    now: u64,
)
    requires
        r.held.contains_key(domain),
        owner_host(r.held[domain].client_key) == Some(host),
        r.expired(host, now),
    ensures
        !r.reclaimed(now).held.contains_key(domain),
{
}

/// Nobody can register a domain away from an owner whose host is live.
pub proof fn law_live_owner_not_displaced(
    r: Registry,
    domain: Seq<char>,
    owner: Seq<char>,
    client_key: Seq<char>,
    host: Seq<char>,
    now: u64,
    nonce: [u8; 8],
)
    requires
        r.held.contains_key(domain),
        owner_host(r.held[domain].client_key) == Some(owner),
        r.live(owner, now),
    ensures
        r.refusal(domain, host, now) is Some,
        r.registered(domain, client_key, host, now, nonce).held.contains_key(domain),
        r.registered(domain, client_key, host, now, nonce).held[domain] == r.held[domain],
{
}

/// Anyone whose host is live and below the limit can claim a domain that is
/// free, or whose owner has gone stale.
pub proof fn law_free_domain_can_be_claimed(
    r: Registry,
    domain: Seq<char>,
    client_key: Seq<char>,
    host: Seq<char>,
    now: u64,
    nonce: [u8; 8],
)
    requires
        r.live(host, now),
        r.count_of(host) < MAX_REGISTRATIONS_PER_CLIENT,
        !r.held.contains_key(domain) || r.owner_expired(r.held[domain].client_key, now),
    ensures
        r.refusal(domain, host, now) is None,
        r.registered(domain, client_key, host, now, nonce).owns(domain, client_key),
        r.registered(domain, client_key, host, now, nonce).held[domain].token == (
        RegistrationToken { issued_at_millis: now, nonce }),
{
}

/// A host that went stale and was cleared away starts afresh when it comes
/// back: it may have as many domains as any other.
pub proof fn law_comeback_starts_afresh(r: Registry, host: Seq<char>, gone: u64, now: u64)
    requires
        r.expired(host, gone),
    ensures
        r.reclaimed(gone).count_of(host) == 0,
        r.reclaimed(gone).probed(host, now).live(host, now),
        forall|domain: Seq<char>|
            !r.reclaimed(gone).held.contains_key(domain) ==> #[trigger] r.reclaimed(gone).probed(
                host,
                now,
            ).refusal(domain, host, now) is None,
{
}

/// Reclaiming twice is reclaiming once.
pub proof fn law_reclaim_settles(r: Registry, now: u64)
    ensures
        r.reclaimed(now).reclaimed(now) == r.reclaimed(now),
{
    let once = r.reclaimed(now);
    assert(once.reclaimed(now) =~= once);
}

/// Two claims on a free domain lead to the same holder, in whichever order
/// they are learned, if their tokens differ. (With one token for two
/// clients the claim that came first stays.)
pub proof fn law_rumors_converge(
    r: Registry,
    domain: Seq<char>,
    a: (Seq<char>, RegistrationToken),
    b: (Seq<char>, RegistrationToken),
)
    requires
        !r.held.contains_key(domain),
        a.1 != b.1,
    ensures
        r.adopted(domain, a.0, a.1).adopted(domain, b.0, b.1) == r.adopted(
            domain,
            b.0,
            b.1,
        ).adopted(domain, a.0, a.1),
{
    crate::collision::law_replicas_converge(a.1, b.1);
    assert(r.adopted(domain, a.0, a.1).adopted(domain, b.0, b.1) =~= r.adopted(
        domain,
        b.0,
        b.1,
    ).adopted(domain, a.0, a.1));
}

/// What is learned of one domain does not depend on what is learned of
/// another.
pub proof fn law_rumors_of_other_domains_commute(
    r: Registry,
    d: Seq<char>,
    a: (Seq<char>, RegistrationToken),
    e: Seq<char>,
    b: (Seq<char>, RegistrationToken),
)
    requires
        d != e,
    ensures
        r.adopted(d, a.0, a.1).adopted(e, b.0, b.1) == r.adopted(e, b.0, b.1).adopted(
            d,
            a.0,
            a.1,
        ),
{
    assert(r.adopted(d, a.0, a.1).adopted(e, b.0, b.1) =~= r.adopted(e, b.0, b.1).adopted(
        d,
        a.0,
        a.1,
    ));
}

/// Hearing the same rumor again does not change who holds the domain.
pub proof fn law_rumor_repeated(
    r: Registry,
    domain: Seq<char>,
    client_key: Seq<char>,
    token: RegistrationToken,
)
    ensures
        ({
            let once = r.adopted(domain, client_key, token);
            let twice = once.adopted(domain, client_key, token);
            &&& once.held.contains_key(domain)
            &&& twice.held.contains_key(domain)
            &&& twice.held[domain].client_key == once.held[domain].client_key
            &&& twice.held[domain].token == once.held[domain].token
            &&& twice.held.dom() == once.held.dom()
        }),
{
    let once = r.adopted(domain, client_key, token);
    let twice = once.adopted(domain, client_key, token);
    if r.held.contains_key(domain) {
        let known = r.held[domain];
        crate::collision::law_replicas_converge(known.token, token);
    }
    assert(twice.held.dom() =~= once.held.dom());
}

/// A registration is held with the client key, the token and the records that
/// it names.
pub proof fn law_registration_held(registration: Registration)
    ensures
        registration@.client_key == registration.client_key@,
        registration@.token == registration.token,
        registration@.records == registration.records@,
{
}

/// A host is live up to a minute after its last probe and expired from then
/// on; one that never probed is neither. What it was given is what is noted
/// of it, and zero where nothing is.
pub proof fn law_host_known_by_probes(r: Registry, host: Seq<char>, now: u64)
    ensures
        r.live(host, now) <==> r.seen.contains_key(host) && now <= r.seen[host] + 60_000,
        r.expired(host, now) <==> r.seen.contains_key(host) && now > r.seen[host] + 60_000,
        r.counts.contains_key(host) ==> r.count_of(host) == r.counts[host],
        !r.counts.contains_key(host) ==> r.count_of(host) == 0,
{
}

/// The owner's host stands behind the first at sign of the client key, and
/// there is none without one.
pub proof fn law_owner_host_behind_at(user: Seq<char>, host: Seq<char>)
    requires
        forall|i: int| 0 <= i < user.len() ==> user[i] != '@',
    ensures
        owner_host(user.push('@') + host) == Some(canonical_host(host)),
        owner_host(user) is None,
{
    let key = user.push('@') + host;
    let k = user.len() as int;
    assert(key[k] == '@');
    assert forall|i: int| 0 <= i < k implies key[i] != '@' by {
        assert(key[i] == user[i]);
    }
    crate::text::lemma_index_from(key, '@', 0, k);
    assert(key.skip(k + 1) =~= host);
    crate::text::law_index_is_first(user, '@', 0);
}

/// A probe sets the time of its host to now, and changes nothing else.
pub proof fn law_probe_noted(r: Registry, host: Seq<char>, now: u64, other: Seq<char>)
    ensures
        ({
            let after = r.probed(host, now);
            &&& after.seen.contains_key(host)
            &&& after.seen[host] == now
            &&& other != host ==> after.seen.contains_key(other) == r.seen.contains_key(other)
            &&& other != host && r.seen.contains_key(other) ==> after.seen[other] == r.seen[other]
            &&& after.held == r.held
            &&& after.counts == r.counts
        }),
{
}

/// Reclaiming takes away the domains of hosts that were seen more than a
/// minute ago, with all memory of these hosts, and nothing else: what stays
/// is as it was, and a domain whose owner was never seen here stays.
pub proof fn law_reclaim_takes_stale_only(r: Registry, now: u64, domain: Seq<char>, host: Seq<char>)
    ensures
        ({
            let after = r.reclaimed(now);
            let stale = r.seen.contains_key(host) && now > r.seen[host] + 60_000;
            let owner_gone = owner_host(r.held[domain].client_key) matches Some(owner)
                && r.seen.contains_key(owner) && now > r.seen[owner] + 60_000;
            &&& after.held.contains_key(domain) <==> r.held.contains_key(domain) && !owner_gone
            &&& after.held.contains_key(domain) ==> after.held[domain] == r.held[domain]
            &&& after.seen.contains_key(host) <==> r.seen.contains_key(host) && !stale
            &&& after.seen.contains_key(host) ==> after.seen[host] == r.seen[host]
            &&& after.counts.contains_key(host) <==> r.counts.contains_key(host) && !stale
            &&& after.counts.contains_key(host) ==> after.counts[host] == r.counts[host]
        }),
{
}

/// A registration is granted exactly where the sender's host has probed
/// within the last minute and was given fewer than five domains, and nobody
/// holds the domain but perhaps an owner who was seen here and is gone. Each
/// refusal says which of these fails.
pub proof fn law_granted_exactly(r: Registry, domain: Seq<char>, host: Seq<char>, now: u64)
    ensures
        ({
            let live = r.seen.contains_key(host) && now <= r.seen[host] + 60_000;
            let room = !r.counts.contains_key(host) || r.counts[host] < 5;
            let owner_gone = owner_host(r.held[domain].client_key) matches Some(owner)
                && r.seen.contains_key(owner) && now > r.seen[owner] + 60_000;
            let free = !r.held.contains_key(domain) || owner_gone;
            &&& r.refusal(domain, host, now) is None <==> live && room && free
            &&& r.refusal(domain, host, now) == Some(RegistrationError::NotLive) <==> !live
            &&& r.refusal(domain, host, now) == Some(RegistrationError::RegistrationLimitReached)
                <==> live && !(room && free)
        }),
{
}

/// A domain is never registered away from an owner who is not known to be
/// gone, live or never seen by this node: the attempt is refused, and the
/// domain stays as it is held.
pub proof fn law_held_domain_refused(
    r: Registry,
    domain: Seq<char>,
    client_key: Seq<char>,
    host: Seq<char>,
    now: u64,
    nonce: [u8; 8],
)
    requires
        r.held.contains_key(domain),
        forall|owner: Seq<char>|
            owner_host(r.held[domain].client_key) == Some(owner) && #[trigger] r.seen.contains_key(
                owner,
            ) ==> now <= r.seen[owner] + 60_000,
    ensures
        r.refusal(domain, host, now) is Some,
        r.registered(domain, client_key, host, now, nonce).held.contains_key(domain),
        r.registered(domain, client_key, host, now, nonce).held[domain] == r.held[domain],
{
}

/// A registration that is granted gives the domain to the sender, with a token
/// of now and without records, and counts it for the sender's host. All other
/// domains and hosts are as reclaiming leaves them.
pub proof fn law_grant_effects(
    r: Registry,
    domain: Seq<char>,
    client_key: Seq<char>,
    host: Seq<char>,
    now: u64,
    nonce: [u8; 8],
    other: Seq<char>,
)
    requires
        r.refusal(domain, host, now) is None,
    ensures
        ({
            let after = r.registered(domain, client_key, host, now, nonce);
            let kept = r.reclaimed(now);
            &&& after.held.contains_key(domain)
            &&& after.held[domain].client_key == client_key
            &&& after.held[domain].token.issued_at_millis == now
            &&& after.held[domain].token.nonce == nonce
            &&& after.held[domain].records.len() == 0
            &&& after.counts.contains_key(host)
            &&& after.counts[host] == 1 + if r.counts.contains_key(host) {
                r.counts[host] as int
            } else {
                0
            }
            &&& after.seen == kept.seen
            &&& other != domain ==> after.held.contains_key(other) == kept.held.contains_key(other)
            &&& other != domain && kept.held.contains_key(other) ==> after.held[other]
                == kept.held[other]
            &&& other != host ==> after.counts.contains_key(other) == kept.counts.contains_key(
                other,
            )
            &&& other != host && kept.counts.contains_key(other) ==> after.counts[other]
                == kept.counts[other]
        }),
{
}

/// A registration that is refused gives nobody anything: where the sender's
/// host is not live nothing changes at all, and else nothing but what
/// reclaiming takes.
pub proof fn law_refusal_effects(
    r: Registry,
    domain: Seq<char>,
    client_key: Seq<char>,
    host: Seq<char>,
    now: u64,
    nonce: [u8; 8],
)
    requires
        r.refusal(domain, host, now) is Some,
    ensures
        r.registered(domain, client_key, host, now, nonce) == if r.seen.contains_key(host) && now
            <= r.seen[host] + 60_000 {
            r.reclaimed(now)
        } else {
            r
        },
{
}

/// When two claims on a domain are settled, the domain is held by one of them
/// and starts without records, whatever was published before. Between two
/// tokens that differ the arbitration decides; of two claims with one token
/// the first stays. Nothing else changes.
pub proof fn law_settled_claim_starts_empty(
    r: Registry,
    domain: Seq<char>,
    a: (Seq<char>, RegistrationToken),
    b: (Seq<char>, RegistrationToken),
    other: Seq<char>,
)
    ensures
        ({
            let after = r.collided(domain, a, b);
            let kept = arbitrated(a.1, b.1);
            &&& after.held.contains_key(domain)
            &&& after.held[domain].records.len() == 0
            &&& after.held[domain].token == kept
            &&& kept == a.1 ==> after.held[domain].client_key == a.0
            &&& kept != a.1 ==> kept == b.1 && after.held[domain].client_key == b.0
            &&& other != domain ==> after.held.contains_key(other) == r.held.contains_key(other)
            &&& other != domain && r.held.contains_key(other) ==> after.held[other] == r.held[other]
            &&& after.seen == r.seen
            &&& after.counts == r.counts
        }),
{
    crate::collision::law_replicas_converge(a.1, b.1);
}

/// A rumor of another claim than the one that is held leaves the domain
/// without records, whichever of the two claims stays: the winner's own
/// publication has to come anew, and the loser's is not served under the
/// winner's name.
pub proof fn law_rumor_of_other_claim_clears_records(
    r: Registry,
    domain: Seq<char>,
    client_key: Seq<char>,
    token: RegistrationToken,
)
    requires
        r.held.contains_key(domain),
        r.held[domain].client_key != client_key || r.held[domain].token != token,
    ensures
        ({
            let held = r.held[domain];
            let after = r.adopted(domain, client_key, token).held[domain];
            let kept = arbitrated(held.token, token);
            &&& r.adopted(domain, client_key, token).held.contains_key(domain)
            &&& after.records.len() == 0
            &&& after.token == kept
            &&& kept == held.token ==> after.client_key == held.client_key
            &&& kept != held.token ==> kept == token && after.client_key == client_key
        }),
{
    law_settled_claim_starts_empty(
        r,
        domain,
        (r.held[domain].client_key, r.held[domain].token),
        (client_key, token),
        domain,
    );
}

/// A rumor of a domain that nobody holds is taken over, without records. One
/// that says what is known already changes nothing, the records included. And
/// no rumor touches another domain, or what is known of hosts.
pub proof fn law_rumor_effects(
    r: Registry,
    domain: Seq<char>,
    client_key: Seq<char>,
    token: RegistrationToken,
    other: Seq<char>,
)
    ensures
        ({
            let after = r.adopted(domain, client_key, token);
            &&& after.held.contains_key(domain)
            &&& !r.held.contains_key(domain) ==> after.held[domain].client_key == client_key
                && after.held[domain].token == token && after.held[domain].records.len() == 0
            &&& r.held.contains_key(domain) && r.held[domain].client_key == client_key
                && r.held[domain].token == token ==> after == r
            &&& other != domain ==> after.held.contains_key(other) == r.held.contains_key(other)
            &&& other != domain && r.held.contains_key(other) ==> after.held[other] == r.held[other]
            &&& after.seen == r.seen
            &&& after.counts == r.counts
        }),
{
}

/// Publishing sets the records of the one domain, and changes neither its
/// holder nor anything else.
pub proof fn law_publication_effects(
    r: Registry,
    domain: Seq<char>,
    records: Seq<Record>,
    other: Seq<char>,
)
    requires
        r.held.contains_key(domain),
    ensures
        ({
            let after = r.published(domain, records);
            &&& after.held.contains_key(domain)
            &&& after.held[domain].records == records
            &&& after.held[domain].client_key == r.held[domain].client_key
            &&& after.held[domain].token == r.held[domain].token
            &&& other != domain ==> after.held.contains_key(other) == r.held.contains_key(other)
            &&& other != domain && r.held.contains_key(other) ==> after.held[other] == r.held[other]
            &&& after.seen == r.seen
            &&& after.counts == r.counts
        }),
{
}

/// A domain belongs to a client exactly where it is held under the client's
/// whole key.
pub proof fn law_owned_by_whole_key(r: Registry, domain: Seq<char>, client_key: Seq<char>)
    ensures
        r.held.contains_key(domain) ==> (r.owns(domain, client_key) <==> r.held[domain].client_key
            == client_key),
        !r.held.contains_key(domain) ==> !r.owns(domain, client_key),
{
}

/// A store is blank where nothing is held, whoever was seen; a new one holds
/// nothing, has seen nobody and has given nothing.
pub proof fn law_blank_exactly(r: Registry, domain: Seq<char>)
    ensures
        r.held.dom() == Set::<Seq<char>>::empty() <==> r.is_blank(),
        r.held.contains_key(domain) ==> !r.is_blank(),
        Registry::empty().is_blank(),
        !Registry::empty().seen.contains_key(domain),
        !Registry::empty().counts.contains_key(domain),
{
    if r.is_blank() {
        assert(r.held.dom() =~= Set::<Seq<char>>::empty());
    }
    if r.held.dom() == Set::<Seq<char>>::empty() {
        assert forall|d: Seq<char>| !#[trigger] r.held.contains_key(d) by {
            assert(!r.held.dom().contains(d));
        }
    }
}

} // verus!
