//! A node: what it does with each message that comes in.
//!
//! Sending and receiving is left to the caller. Peers are known by the text
//! of their addresses.

use vstd::prelude::*;
use crate::api::{
    handle_client_request_at, probe_outcome, register_outcome, request_outcome,
    set_records_outcome, Sender,
};
use crate::bytes::{read_be16, value16};
use crate::client_api::{ClientRequest, ClientResponse};
use crate::dns::{
    build_response, format_error_bytes, format_error_response, parse_query, question_in,
    record_matches_qtype, response_bytes, type_code,
};
use crate::domain::DomainName;
use crate::gossip::{
    answers_request, claim_names, claims_of, domain_names, entries_of, entry_names,
    is_valid_rumor_response, is_well_formed, well_formed, Claim, ConformanceChallenge, DigestEntry,
    Gossip, GossipMessage, RegistrationRumor, MAX_DIGEST_ENTRIES,
};
use crate::peers::{learned, PeerBook};
use crate::resolver::{ResolveAnswer, ResolveQuery};
use crate::store::{Registry, RegistryStore};
use crate::table::StringTable;
use crate::text::texts;
use crate::token::{draw_nonce, drawn, same_token, RegistrationToken};
use crate::zone::{copy_records, Record};

verus! {

// ---------------------------------------------------------------------
// What a node does, as plain values
// ---------------------------------------------------------------------

/// What a peer was asked: the domains, and the challenge that went with
/// them.
pub struct Asked {
    pub domains: Seq<Seq<char>>,
    pub challenge: ConformanceChallenge,
}

/// The state of a node: its registrations, the peers that it knows, and what
/// it has asked of whom.
#[verifier::ext_equal]
pub struct NodeState {
    pub registry: Registry,
    pub peers: Seq<Seq<char>>,
    pub asked: Map<Seq<char>, Asked>,
}

/// Whether a registry knows less of a domain than a digest says there is: it
/// has no registration, or one from an earlier time.
pub open spec fn lacks(r: Registry, domain: Seq<char>, issued_at_millis: u64) -> bool {
    !r.held.contains_key(domain) || r.held[domain].token.issued_at_millis < issued_at_millis
}

/// Whether a message is a digest of a registry: every domain once, with the
/// time of its token.
pub open spec fn digests(r: Registry, message: Gossip) -> bool {
    &&& message matches Gossip::Digest { entries }
    &&& entry_names(entries).no_duplicates()
    &&& forall|d: Seq<char>| #[trigger]
        entry_names(entries).contains(d) <==> r.held.contains_key(d)
    &&& forall|i: int|
        0 <= i < entries.len() ==> (#[trigger] entries[i]).1
            == r.held[entries[i].0].token.issued_at_millis
}

/// The domains of a digest that a registry lacks, in order.
pub open spec fn missing_from(r: Registry, entries: Seq<(Seq<char>, u64)>) -> Seq<Seq<char>>
    decreases entries.len(),
{
    if entries.len() == 0 {
        Seq::empty()
    } else {
        let front = missing_from(r, entries.drop_last());
        let (domain, issued_at_millis) = entries.last();
        if lacks(r, domain, issued_at_millis) {
            front.push(domain)
        } else {
            front
        }
    }
}

/// What a registry can tell of the given domains, in order.
pub open spec fn known_claims(r: Registry, domains: Seq<Seq<char>>) -> Seq<Claim>
    decreases domains.len(),
{
    if domains.len() == 0 {
        Seq::empty()
    } else {
        let front = known_claims(r, domains.drop_last());
        let domain = domains.last();
        if r.held.contains_key(domain) {
            front.push(
                Claim {
                    domain,
                    token: r.held[domain].token,
                    client_key: r.held[domain].client_key,
                },
            )
        } else {
            front
        }
    }
}

/// The registry after all claims were learned, in order.
pub open spec fn all_adopted(r: Registry, claims: Seq<Claim>) -> Registry
    decreases claims.len(),
{
    if claims.len() == 0 {
        r
    } else {
        let claim = claims.last();
        all_adopted(r, claims.drop_last()).adopted(claim.domain, claim.client_key, claim.token)
    }
}

impl NodeState {
    /// Whether rumors from a peer are to be believed: the peer was asked,
    /// passed the test, and kept to what it was asked.
    pub open spec fn believes(
        self,
        from: Seq<char>,
        claims: Seq<Claim>,
        answer: RegistrationToken,
    ) -> bool {
        &&& self.asked.contains_key(from)
        &&& answer == self.asked[from].challenge.answer()
        &&& answers_request(self.asked[from].domains, claim_names(claims))
    }

    /// The node after it has heard from a peer.
    pub open spec fn heard(self, from: Seq<char>) -> NodeState {
        NodeState { peers: learned(self.peers, from), ..self }
    }

    /// The node after a message, and what it replies. A request that is made
    /// now carries the given challenge.
    pub open spec fn after(
        self,
        from: Seq<char>,
        message: Gossip,
        challenge: ConformanceChallenge,
    ) -> (NodeState, Option<Gossip>) {
        if !well_formed(message) {
            (self, None)
        } else {
            match message {
                Gossip::Digest { entries } => {
                    let domains = missing_from(self.registry, entries);
                    if domains.len() == 0 {
                        (self.heard(from), None)
                    } else {
                        (
                            NodeState {
                                asked: self.asked.insert(from, Asked { domains, challenge }),
                                ..self.heard(from)
                            },
                            Some(Gossip::Request { domains, challenge }),
                        )
                    }
                },
                Gossip::Request { domains, challenge: posed } => {
                    let claims = known_claims(self.registry, domains);
                    if claims.len() == 0 {
                        (self.heard(from), None)
                    } else {
                        (self.heard(from), Some(Gossip::Rumors { claims, answer: posed.answer() }))
                    }
                },
                Gossip::Rumors { claims, answer } => (
                    NodeState {
                        registry: if self.believes(from, claims, answer) {
                            all_adopted(self.registry, claims)
                        } else {
                            self.registry
                        },
                        asked: self.asked.remove(from),
                        ..self.heard(from)
                    },
                    None,
                ),
            }
        }
    }
}

/// The records that a query for `qtype` asks for, in order.
pub open spec fn matching_records(records: Seq<Record>, qtype: u16) -> Seq<Record> {
    records.filter(|r: Record| qtype == 255 || type_code(r.record_type) == qtype)
}

/// The reply to a name-lookup message. A message that is not understood is
/// answered by an error where it has an identifier, else not at all.
pub open spec fn lookup_reply(r: Registry, bytes: Seq<u8>) -> Option<Seq<u8>> {
    match question_in(bytes) {
        Err(_) => if bytes.len() >= 2 {
            Some(format_error_bytes(value16(bytes, 0)))
        } else {
            None
        },
        Ok(q) => if r.held.contains_key(q.name) {
            Some(response_bytes(q, true, matching_records(r.held[q.name].records, q.qtype)))
        } else {
            Some(response_bytes(q, false, Seq::empty()))
        },
    }
}

// ---------------------------------------------------------------------
// The node
// ---------------------------------------------------------------------

/// What a peer was asked.
struct Outstanding {
    domains: Vec<DomainName>,
    challenge: ConformanceChallenge,
}

/// The state of a node.
pub struct Node {
    store: RegistryStore,
    peers: PeerBook,
    outstanding: StringTable<Outstanding>,
}

impl View for Node {
    type V = NodeState;

    closed spec fn view(&self) -> NodeState {
        NodeState {
            registry: self.store@,
            peers: self.peers@,
            asked: Map::new(
                |p: Seq<char>| self.outstanding@.contains_key(p),
                |p: Seq<char>|
                    Asked {
                        domains: domain_names(self.outstanding@[p].domains@),
                        challenge: self.outstanding@[p].challenge,
                    },
            ),
        }
    }
}

fn copy_domains(domains: &Vec<DomainName>) -> (r: Vec<DomainName>)
    ensures
        r@ == domains@,
{
    let mut out: Vec<DomainName> = Vec::new();
    let mut i: usize = 0;
    while i < domains.len()
        invariant
            i <= domains@.len(),
            out@ == domains@.take(i as int),
        decreases domains.len() - i,
    {
        out.push(domains[i].clone());
        assert(out@ =~= domains@.take(i + 1));
        i = i + 1;
    }
    assert(domains@.take(i as int) =~= domains@);
    out
}

impl Node {
    /// The parts are in order.
    pub closed spec fn wf(self) -> bool {
        self.store.wf() && self.outstanding.wf()
    }

    /// A node without registrations that knows the given peers.
    pub fn new(peers: Vec<String>) -> (r: Self)
        ensures
            r.wf(),
            r@ == (NodeState {
                registry: Registry::empty(),
                peers: texts(peers@),
                asked: Map::empty(),
            }),
    {
        let r = Node {
            store: RegistryStore::new(),
            peers: PeerBook::new(peers),
            outstanding: StringTable::new(),
        };
        assert(r@.asked =~= Map::empty());
        r
    }

    /// The registrations.
    pub fn store(&self) -> (r: &RegistryStore)
        requires
            self.wf(),
        ensures
            r.wf(),
            r@ == self@.registry,
    {
        &self.store
    }

    /// The peers.
    pub fn peers(&self) -> (r: &PeerBook)
        ensures
            r@ == self@.peers,
    {
        &self.peers
    }

    /// What this node knows, in short, to be sent to a peer. There is
    /// nothing to send where it knows nothing.
    pub fn digest(&self) -> (r: Option<GossipMessage>)
        requires
            self.wf(),
        ensures
            match r {
                None => self@.registry.is_blank(),
                Some(message) => !self@.registry.is_blank() && digests(self@.registry, message@),
            },
    {
        let rumors = self.store.all_rumors();
        let ghost order = self.store.order();
        if rumors.len() == 0 {
            assert forall|d: Seq<char>| !#[trigger] self@.registry.held.contains_key(d) by {
                assert(!order.contains(d));
            }
            return None;
        }
        let mut entries: Vec<DigestEntry> = Vec::new();
        let mut i: usize = 0;
        while i < rumors.len()
            invariant
                i <= rumors@.len() == order.len(),
                entries@.len() == i,
                forall|j: int|
                    0 <= j < rumors@.len() ==> {
                        let (domain, client_key, token) = #[trigger] rumors@[j];
                        &&& domain@ == order[j]
                        &&& self@.registry.held.contains_key(domain@)
                        &&& self@.registry.held[domain@].token == token
                    },
                forall|j: int|
                    0 <= j < i ==> {
                        let entry = #[trigger] entries@[j];
                        &&& entry.domain@ == order[j]
                        &&& entry.issued_at_millis
                            == self@.registry.held[order[j]].token.issued_at_millis
                    },
            decreases rumors.len() - i,
        {
            entries.push(
                DigestEntry {
                    domain: rumors[i].0.clone(),
                    issued_at_millis: rumors[i].2.issued_at_millis,
                },
            );
            i = i + 1;
        }
        proof {
            let plain = entries_of(entries@);
            assert(entry_names(plain) =~= order);
            assert(order.contains(order[0]));
            assert forall|j: int| 0 <= j < plain.len() implies (#[trigger] plain[j]).1
                == self@.registry.held[plain[j].0].token.issued_at_millis by {
                assert(plain[j].0 == entries@[j].domain@);
            }
        }
        Some(GossipMessage::Digest { rumors: entries })
    }

    /// Whether a random choice among the peers may fall so.
    pub closed spec fn picks(self, choice: Option<String>) -> bool {
        self.peers.picks(choice)
    }

    /// What to push to whom in a round of gossip: a digest, to one of the
    /// peers. There is nothing to do where no peer is known, or nothing to
    /// tell.
    pub fn push(&self) -> (r: Option<(String, GossipMessage)>)
        requires
            self.wf(),
        ensures
            match r {
                None => self@.peers.len() == 0 || self@.registry.is_blank(),
                Some((peer, message)) => self@.peers.contains(peer@) && self.picks(Some(peer))
                    && !self@.registry.is_blank() && digests(self@.registry, message@),
            },
            r matches Some((peer, _)) ==> exists|book: PeerBook| #[trigger]
                book.picks(Some(peer)) && book@ == self@.peers,
    {
        match self.peers.random_peer() {
            Some(peer) => match self.digest() {
                Some(message) => Some((peer, message)),
                None => None,
            },
            None => None,
        }
    }

    /// The domains of a digest that this node lacks.
    fn missing(&self, entries: &Vec<DigestEntry>) -> (r: Vec<DomainName>)
        requires
            self.wf(),
        ensures
            domain_names(r@) == missing_from(self@.registry, entries_of(entries@)),
    {
        let ghost all = entries_of(entries@);
        let mut out: Vec<DomainName> = Vec::new();
        let mut i: usize = 0;
        assert(domain_names(out@) =~= missing_from(self@.registry, all.take(0)));
        while i < entries.len()
            invariant
                self.wf(),
                all == entries_of(entries@),
                i <= entries@.len(),
                domain_names(out@) == missing_from(self@.registry, all.take(i as int)),
            decreases entries.len() - i,
        {
            assert(all.take(i + 1).drop_last() =~= all.take(i as int));
            let ghost before = domain_names(out@);
            let lacking: bool = match self.store.lookup(&entries[i].domain) {
                Some(known) => known.token.issued_at_millis < entries[i].issued_at_millis,
                None => true,
            };
            if lacking {
                let domain = entries[i].domain.clone();
                out.push(domain);
                assert(domain_names(out@) =~= before.push(all[i as int].0));
            }
            i = i + 1;
        }
        assert(all.take(i as int) =~= all);
        out
    }

    /// What this node can tell of the given domains.
    fn known(&self, domains: &Vec<DomainName>) -> (r: Vec<RegistrationRumor>)
        requires
            self.wf(),
        ensures
            claims_of(r@) == known_claims(self@.registry, domain_names(domains@)),
    {
        let ghost all = domain_names(domains@);
        let mut out: Vec<RegistrationRumor> = Vec::new();
        let mut i: usize = 0;
        assert(claims_of(out@) =~= known_claims(self@.registry, all.take(0)));
        while i < domains.len()
            invariant
                self.wf(),
                all == domain_names(domains@),
                i <= domains@.len(),
                claims_of(out@) == known_claims(self@.registry, all.take(i as int)),
            decreases domains.len() - i,
        {
            assert(all.take(i + 1).drop_last() =~= all.take(i as int));
            let ghost before = claims_of(out@);
            match self.store.lookup(&domains[i]) {
                Some(known) => {
                    let rumor = RegistrationRumor {
                        domain: domains[i].clone(),
                        token: known.token,
                        client_key: known.client_key.clone(),
                    };
                    out.push(rumor);
                    assert(claims_of(out@) =~= before.push(rumor@));
                },
                None => {},
            }
            i = i + 1;
        }
        assert(all.take(i as int) =~= all);
        out
    }

    /// Whether rumors from a peer are to be believed.
    fn is_believable(
        &self,
        from: &str,
        rumors: &Vec<RegistrationRumor>,
        answer: &RegistrationToken,
    ) -> (r: bool)
        requires
            self.wf(),
        ensures
            r == self@.believes(from@, claims_of(rumors@), *answer),
    {
        match self.outstanding.get(from) {
            Some(asked) => {
                let expected = asked.challenge.expected_answer();
                same_token(answer, &expected) && is_valid_rumor_response(
                    asked.domains.as_slice(),
                    rumors.as_slice(),
                )
            },
            None => false,
        }
    }

    /// Learns all of the given rumors.
    fn adopt_all(&mut self, rumors: &Vec<RegistrationRumor>)
        requires
            old(self).wf(),
        ensures
            final(self).wf(),
            final(self)@.registry == all_adopted(old(self)@.registry, claims_of(rumors@)),
            final(self).peers == old(self).peers,
            final(self).outstanding == old(self).outstanding,
    {
        let ghost all = claims_of(rumors@);
        let mut i: usize = 0;
        assert(all.take(0) =~= Seq::empty());
        while i < rumors.len()
            invariant
                self.wf(),
                all == claims_of(rumors@),
                i <= rumors@.len(),
                self.peers == old(self).peers,
                self.outstanding == old(self).outstanding,
                self@.registry == all_adopted(old(self)@.registry, all.take(i as int)),
            decreases rumors.len() - i,
        {
            assert(all.take(i + 1).drop_last() =~= all.take(i as int));
            assert(all[i as int] == rumors@[i as int]@);
            self.store.adopt_rumor(
                rumors[i].domain.clone(),
                rumors[i].client_key.clone(),
                rumors[i].token,
            );
            i = i + 1;
        }
        assert(all.take(i as int) =~= all);
    }

    /// Takes a message from a peer, and returns what to reply. A request
    /// that is made now carries the given challenge.
    pub fn handle_gossip_message_with(
        &mut self,
        from: &str,
        message: GossipMessage,
        challenge: ConformanceChallenge,
    ) -> (r: Option<GossipMessage>)
        requires
            old(self).wf(),
        ensures
            final(self).wf(),
            (
                final(self)@,
                match r {
                    Some(reply) => Some(reply@),
                    None => None,
                },
            ) == old(self)@.after(from@, message@, challenge),
    {
        let ghost start = self@;
        if !is_well_formed(&message) {
            return None;
        }
        self.peers.learn(from);
        assert(self@ =~= start.heard(from@));
        match message {
            GossipMessage::Digest { rumors } => {
                let domains = self.missing(&rumors);
                assert(domain_names(domains@).len() == domains@.len());
                if domains.len() == 0 {
                    return None;
                }
                let kept = copy_domains(&domains);
                self.outstanding.insert(from.to_owned(), Outstanding { domains: kept, challenge });
                assert(self@ =~= (NodeState {
                    asked: start.asked.insert(
                        from@,
                        Asked { domains: domain_names(domains@), challenge },
                    ),
                    ..start.heard(from@)
                }));
                Some(GossipMessage::Request { domains, challenge })
            },
            GossipMessage::Request { domains, challenge: posed } => {
                let rumors = self.known(&domains);
                assert(claims_of(rumors@).len() == rumors@.len());
                if rumors.len() == 0 {
                    return None;
                }
                Some(GossipMessage::Rumors { rumors, challenge_answer: posed.expected_answer() })
            },
            GossipMessage::Rumors { rumors, challenge_answer } => {
                let believable: bool = self.is_believable(from, &rumors, &challenge_answer);
                self.outstanding.remove(from);
                assert(self@ =~= (NodeState {
                    asked: start.asked.remove(from@),
                    ..start.heard(from@)
                }));
                if believable {
                    let ghost mid = self@;
                    self.adopt_all(&rumors);
                    assert(self@ =~= (NodeState {
                        registry: all_adopted(start.registry, claims_of(rumors@)),
                        ..mid
                    }));
                }
                None
            },
        }
    }

    /// Takes a message from a peer, and returns what to reply. A request
    /// that is made now carries a fresh challenge of the given time.
    pub fn handle_gossip_message(&mut self, from: &str, message: GossipMessage, now: u64) -> (r:
        Option<GossipMessage>)
        requires
            old(self).wf(),
        ensures
            final(self).wf(),
            exists|challenge: ConformanceChallenge|
                challenge.drawn_at(now) && (
                    final(self)@,
                    match r {
                        Some(reply) => Some(reply@),
                        None => None,
                    },
                ) == #[trigger] old(self)@.after(from@, message@, challenge),
    {
        let challenge = ConformanceChallenge::random(now);
        self.handle_gossip_message_with(from, message, challenge)
    }

    /// The answer to a plain query.
    pub fn resolve(&self, query: &ResolveQuery) -> (r: ResolveAnswer)
        requires
            self.wf(),
        ensures
            if self@.registry.held.contains_key(query.domain@) {
                let known = self@.registry.held[query.domain@];
                &&& r.owner_client_key matches Some(key) && key@ == known.client_key
                &&& r.records@ == known.records
            } else {
                r.owner_client_key is None && r.records@.len() == 0
            },
    {
        match self.store.lookup(&query.domain) {
            Some(known) => ResolveAnswer {
                owner_client_key: Some(known.client_key.clone()),
                records: copy_records(&known.records),
            },
            None => ResolveAnswer { owner_client_key: None, records: Vec::new() },
        }
    }

    /// The reply to a name-lookup message, if there is one.
    pub fn answer_lookup(&self, bytes: &[u8]) -> (r: Option<Vec<u8>>)
        requires
            self.wf(),
        ensures
            match r {
                Some(reply) => lookup_reply(self@.registry, bytes@) == Some(reply@),
                None => lookup_reply(self@.registry, bytes@) is None,
            },
    {
        match parse_query(bytes) {
            Ok(query) => match self.store.lookup(&query.domain) {
                Some(known) => {
                    let matching = select_records(&known.records, query.qtype);
                    Some(build_response(&query, true, matching.as_slice()))
                },
                None => {
                    let none: Vec<Record> = Vec::new();
                    assert(none@ =~= Seq::empty());
                    Some(build_response(&query, false, none.as_slice()))
                },
            },
            Err(_) => if bytes.len() >= 2 {
                Some(format_error_response(read_be16(bytes, 0)))
            } else {
                None
            },
        }
    }

    /// Authenticates and applies a client's request at `now`, with the given
    /// random bytes for a token.
    pub fn handle_request_at(
        &mut self,
        request: ClientRequest,
        rdns_verified: bool,
        now: u64,
        nonce: [u8; 8],
    ) -> (r: ClientResponse)
        requires
            old(self).wf(),
        ensures
            final(self).wf(),
            (final(self)@.registry, r@) == request_outcome(
                old(self)@.registry,
                request,
                rdns_verified,
                now,
                nonce,
            ),
            final(self)@.peers == old(self)@.peers,
            final(self)@.asked == old(self)@.asked,
    {
        let r = handle_client_request_at(&mut self.store, request, rdns_verified, now, nonce);
        assert(self@.asked =~= old(self)@.asked);
        r
    }

    /// Authenticates and applies a client's request at `now`.
    pub fn handle_request(&mut self, request: ClientRequest, rdns_verified: bool, now: u64) -> (r:
        ClientResponse)
        requires
            old(self).wf(),
        ensures
            final(self).wf(),
            exists|nonce: [u8; 8]|
                drawn(nonce) && (final(self)@.registry, r@) == #[trigger] request_outcome(
                    old(self)@.registry,
                    request,
                    rdns_verified,
                    now,
                    nonce,
                ),
            final(self)@.peers == old(self)@.peers,
            final(self)@.asked == old(self)@.asked,
    {
        let nonce = draw_nonce();
        self.handle_request_at(request, rdns_verified, now, nonce)
    }
}

/// The host name that has to be confirmed before a request is applied: only
/// a registration depends on it.
pub fn claimed_host(request: &ClientRequest) -> (r: Option<&str>)
    ensures
        match r {
            Some(rdns) => *request matches ClientRequest::Register(envelope) && rdns@
                == envelope.rdns@,
            None => !(*request is Register),
        },
{
    match request {
        ClientRequest::Register(envelope) => Some(envelope.rdns.as_str()),
        _ => None,
    }
}

/// The records that a query for `qtype` asks for.
fn select_records(records: &Vec<Record>, qtype: u16) -> (r: Vec<Record>)
    ensures
        r@ == matching_records(records@, qtype),
{
    reveal(Seq::filter);
    let mut out: Vec<Record> = Vec::new();
    let mut i: usize = 0;
    assert(records@.take(0) =~= Seq::empty());
    while i < records.len()
        invariant
            i <= records@.len(),
            out@ == matching_records(records@.take(i as int), qtype),
        decreases records.len() - i,
    {
        reveal(Seq::filter);
        assert(records@.take(i + 1).drop_last() =~= records@.take(i as int));
        if record_matches_qtype(&records[i], qtype) {
            out.push(records[i].clone());
        }
        i = i + 1;
    }
    assert(records@.take(i as int) =~= records@);
    out
}

// ---------------------------------------------------------------------
// Laws
// ---------------------------------------------------------------------

proof fn lemma_missing_names(r: Registry, entries: Seq<(Seq<char>, u64)>)
    requires
        entry_names(entries).no_duplicates(),
    ensures
        missing_from(r, entries).len() <= entries.len(),
        missing_from(r, entries).no_duplicates(),
        forall|d: Seq<char>| #[trigger]
            missing_from(r, entries).contains(d) ==> entry_names(entries).contains(d),
        forall|i: int|
            0 <= i < entries.len() && lacks(r, (#[trigger] entries[i]).0, entries[i].1)
                ==> missing_from(r, entries).contains(entries[i].0),
    decreases entries.len(),
{
    if entries.len() > 0 {
        let front = entries.drop_last();
        let names = entry_names(entries);
        let last = entries.last();
        assert(entry_names(front) =~= names.drop_last());
        lemma_missing_names(r, front);
        let before = missing_from(r, front);
        let after = missing_from(r, entries);
        assert forall|d: Seq<char>| entry_names(front).contains(d) implies names.contains(d) && d
            != last.0 by {
            let i = choose|i: int|
                0 <= i < entry_names(front).len() && entry_names(front)[i] == d;
            assert(names[i] == d);
            assert(names[names.len() - 1] == last.0);
        }
        assert(names[names.len() - 1] == last.0);
        if lacks(r, last.0, last.1) {
            assert(!before.contains(last.0));
            assert forall|d: Seq<char>| after.contains(d) <==> (before.contains(d) || d == last.0) by {
                if before.contains(d) {
                    let i = choose|i: int| 0 <= i < before.len() && before[i] == d;
                    assert(after[i] == d);
                }
                assert(after[before.len() as int] == last.0);
            }
        }
        assert forall|i: int|
            0 <= i < entries.len() && lacks(
                r,
                (#[trigger] entries[i]).0,
                entries[i].1,
            ) implies after.contains(entries[i].0) by {
            if i < front.len() {
                assert(front[i] == entries[i]);
                assert(before.contains(front[i].0));
            }
        }
    }
}

proof fn lemma_known_names(r: Registry, domains: Seq<Seq<char>>)
    requires
        domains.no_duplicates(),
    ensures
        known_claims(r, domains).len() <= domains.len(),
        claim_names(known_claims(r, domains)).no_duplicates(),
        forall|d: Seq<char>| #[trigger]
            claim_names(known_claims(r, domains)).contains(d) <==> domains.contains(d)
                && r.held.contains_key(d),
    decreases domains.len(),
{
    let after = claim_names(known_claims(r, domains));
    if domains.len() > 0 {
        let front = domains.drop_last();
        let last = domains.last();
        lemma_known_names(r, front);
        let before = claim_names(known_claims(r, front));
        assert forall|d: Seq<char>| domains.contains(d) <==> (front.contains(d) || d == last) by {
            if front.contains(d) {
                let i = choose|i: int| 0 <= i < front.len() && front[i] == d;
                assert(domains[i] == d);
            }
            assert(domains[domains.len() - 1] == last);
            if domains.contains(d) && d != last {
                let i = choose|i: int| 0 <= i < domains.len() && domains[i] == d;
                assert(front[i] == d);
            }
        }
        assert(!front.contains(last)) by {
            if front.contains(last) {
                let i = choose|i: int| 0 <= i < front.len() && front[i] == last;
                assert(domains[i] == domains[domains.len() - 1]);
            }
        }
        if r.held.contains_key(last) {
            assert(after =~= before.push(last));
            assert(!before.contains(last));
            assert forall|d: Seq<char>| after.contains(d) <==> (before.contains(d) || d == last) by {
                if before.contains(d) {
                    let i = choose|i: int| 0 <= i < before.len() && before[i] == d;
                    assert(after[i] == d);
                }
                assert(after[before.len() as int] == last);
            }
        } else {
            assert(after =~= before);
        }
    } else {
        assert(after =~= Seq::empty());
    }
}

/// What a node replies is well formed, whatever it was sent.
pub proof fn law_replies_well_formed(
    state: NodeState,
    from: Seq<char>,
    message: Gossip,
    challenge: ConformanceChallenge,
)
    ensures
        state.after(from, message, challenge).1 matches Some(reply) ==> well_formed(reply),
{
    if well_formed(message) {
        match message {
            Gossip::Digest { entries } => {
                lemma_missing_names(state.registry, entries);
            },
            Gossip::Request { domains, .. } => {
                lemma_known_names(state.registry, domains);
            },
            _ => {},
        }
    }
}

/// A message that is not well formed leaves no trace at all.
pub proof fn law_malformed_message_ignored(
    state: NodeState,
    from: Seq<char>,
    message: Gossip,
    challenge: ConformanceChallenge,
)
    requires
        !well_formed(message),
    ensures
        state.after(from, message, challenge) == (state, None::<Gossip>),
{
}

/// Rumors with a wrong answer to the challenge change no registration,
/// however plausible they are.
pub proof fn law_wrong_answer_ignored(
    state: NodeState,
    from: Seq<char>,
    claims: Seq<Claim>,
    answer: RegistrationToken,
    challenge: ConformanceChallenge,
)
    requires
        state.asked.contains_key(from) ==> answer != state.asked[from].challenge.answer(),
    ensures
        state.after(from, Gossip::Rumors { claims, answer }, challenge).0.registry
            == state.registry,
{
}

/// Rumors that nobody asked for change no registration, and neither do
/// those about a domain that was not asked for.
pub proof fn law_unrequested_rumors_ignored(
    state: NodeState,
    from: Seq<char>,
    claims: Seq<Claim>,
    answer: RegistrationToken,
    challenge: ConformanceChallenge,
    i: int,
)
    requires
        !state.asked.contains_key(from) || (0 <= i < claims.len()
            && !state.asked[from].domains.contains(claims[i].domain)),
    ensures
        state.after(from, Gossip::Rumors { claims, answer }, challenge).0.registry
            == state.registry,
{
    if state.asked.contains_key(from) {
        assert(claim_names(claims)[i] == claims[i].domain);
    }
}

/// A failed test is not remembered: the node is left as it would be by a
/// passed test that brought no news.
pub proof fn law_failure_not_remembered(
    state: NodeState,
    from: Seq<char>,
    claims: Seq<Claim>,
    answer: RegistrationToken,
    challenge: ConformanceChallenge,
)
    requires
        state.asked.contains_key(from),
        !state.believes(from, claims, answer),
        well_formed(Gossip::Rumors { claims, answer }),
    ensures
        state.after(from, Gossip::Rumors { claims, answer }, challenge).0 == state.after(
            from,
            Gossip::Rumors {
                claims: Seq::empty(),
                answer: state.asked[from].challenge.answer(),
            },
            challenge,
        ).0,
{
    let none: Seq<Claim> = Seq::empty();
    assert(claim_names(none) =~= Seq::empty());
    assert(well_formed(
        Gossip::Rumors { claims: none, answer: state.asked[from].challenge.answer() },
    ));
}

/// An answer is good for one exchange: what came in with it cannot be sent
/// again later.
pub proof fn law_answer_used_up(
    state: NodeState,
    from: Seq<char>,
    claims: Seq<Claim>,
    answer: RegistrationToken,
    challenge: ConformanceChallenge,
    again: Seq<Claim>,
)
    requires
        well_formed(Gossip::Rumors { claims, answer }),
    ensures
        ({
            let after = state.after(from, Gossip::Rumors { claims, answer }, challenge).0;
            !after.believes(from, again, answer)
        }),
{
}

/// The reply of a node that keeps to the rules passes the test of the node
/// that asked: its rumors are believed.
pub proof fn law_honest_reply_believed(
    asker: NodeState,
    peer: NodeState,
    peer_name: Seq<char>,
    asker_name: Seq<char>,
    unused: ConformanceChallenge,
)
    requires
        asker.asked.contains_key(peer_name),
        well_formed(
            Gossip::Request {
                domains: asker.asked[peer_name].domains,
                challenge: asker.asked[peer_name].challenge,
            },
        ),
    ensures
        ({
            let asked = asker.asked[peer_name];
            let reply = peer.after(
                asker_name,
                Gossip::Request { domains: asked.domains, challenge: asked.challenge },
                unused,
            ).1;
            reply matches Some(Gossip::Rumors { claims, answer }) ==> asker.believes(
                peer_name,
                claims,
                answer,
            )
        }),
{
    let asked = asker.asked[peer_name];
    lemma_known_names(peer.registry, asked.domains);
    let claims = known_claims(peer.registry, asked.domains);
    assert forall|i: int| 0 <= i < claim_names(claims).len() implies asked.domains.contains(
        #[trigger] claim_names(claims)[i],
    ) by {
        assert(claim_names(claims).contains(claim_names(claims)[i]));
    }
}

proof fn lemma_adopted_held(r: Registry, claims: Seq<Claim>, d: Seq<char>)
    ensures
        all_adopted(r, claims).held.contains_key(d) <==> r.held.contains_key(d) || claim_names(
            claims,
        ).contains(d),
    decreases claims.len(),
{
    let names = claim_names(claims);
    if claims.len() > 0 {
        let front = claims.drop_last();
        lemma_adopted_held(r, front, d);
        assert(claim_names(front) =~= names.drop_last());
        assert(names[names.len() - 1] == claims.last().domain);
        if claim_names(front).contains(d) {
            let i = choose|i: int|
                0 <= i < claim_names(front).len() && claim_names(front)[i] == d;
            assert(names[i] == d);
        }
        if names.contains(d) && d != claims.last().domain {
            let i = choose|i: int| 0 <= i < names.len() && names[i] == d;
            assert(claim_names(front)[i] == d);
        }
    }
}

/// The digest of a node that knows of no more domains than a digest may list
/// is taken by every other node.
pub proof fn law_digest_well_formed(r: Registry, entries: Seq<(Seq<char>, u64)>)
    requires
        digests(r, Gossip::Digest { entries }),
        entries.len() <= MAX_DIGEST_ENTRIES,
    ensures
        well_formed(Gossip::Digest { entries }),
        forall|d: Seq<char>| r.held.contains_key(d) ==> #[trigger] entry_names(entries).contains(d),
{
}

/// One round of gossip brings a node every domain that its peer announced
/// and still holds: digest, request and rumors, each handled in turn.
pub proof fn law_gossip_round_spreads(
    node: NodeState,
    peer: NodeState,
    node_name: Seq<char>,
    peer_name: Seq<char>,
    entries: Seq<(Seq<char>, u64)>,
    challenge: ConformanceChallenge,
    unused: ConformanceChallenge,
    d: Seq<char>,
)
    requires
        well_formed(Gossip::Digest { entries }),
        entry_names(entries).contains(d),
        peer.registry.held.contains_key(d),
    ensures
        ({
            let (asking, request) = node.after(peer_name, Gossip::Digest { entries }, challenge);
            match request {
                None => asking.registry.held.contains_key(d),
                Some(request) => match peer.after(node_name, request, unused).1 {
                    None => asking.registry.held.contains_key(d),
                    Some(rumors) => asking.after(
                        peer_name,
                        rumors,
                        unused,
                    ).0.registry.held.contains_key(d),
                },
            }
        }),
{
    let (asking, request) = node.after(peer_name, Gossip::Digest { entries }, challenge);
    let domains = missing_from(node.registry, entries);
    lemma_missing_names(node.registry, entries);
    let k = choose|k: int| 0 <= k < entry_names(entries).len() && entry_names(entries)[k] == d;
    assert(entries[k].0 == d);
    if domains.len() > 0 {
        lemma_known_names(peer.registry, domains);
        let claims = known_claims(peer.registry, domains);
        law_honest_reply_believed(asking, peer, peer_name, node_name, unused);
        lemma_adopted_held(node.registry, claims, d);
        if !node.registry.held.contains_key(d) {
            assert(domains.contains(d));
            assert(claim_names(claims).contains(d));
            assert(claims.len() > 0);
        }
        law_replies_well_formed(
            peer,
            node_name,
            Gossip::Request { domains, challenge },
            unused,
        );
    }
}

proof fn lemma_adopted_others(r: Registry, claims: Seq<Claim>, d: Seq<char>)
    requires
        !claim_names(claims).contains(d),
    ensures
        all_adopted(r, claims).held.contains_key(d) == r.held.contains_key(d),
        r.held.contains_key(d) ==> all_adopted(r, claims).held[d] == r.held[d],
    decreases claims.len(),
{
    if claims.len() > 0 {
        let front = claims.drop_last();
        let names = claim_names(claims);
        assert(claim_names(front) =~= names.drop_last());
        assert(names[names.len() - 1] == claims.last().domain);
        assert(names.contains(claims.last().domain));
        if claim_names(front).contains(d) {
            let i = choose|i: int|
                0 <= i < claim_names(front).len() && claim_names(front)[i] == d;
            assert(names[i] == d);
        }
        lemma_adopted_others(r, front, d);
    }
}

proof fn lemma_adopted_claim(r: Registry, claims: Seq<Claim>, i: int)
    requires
        claim_names(claims).no_duplicates(),
        0 <= i < claims.len(),
    ensures
        ({
            let c = claims[i];
            let alone = r.adopted(c.domain, c.client_key, c.token);
            &&& all_adopted(r, claims).held.contains_key(c.domain)
            &&& all_adopted(r, claims).held[c.domain] == alone.held[c.domain]
        }),
    decreases claims.len(),
{
    let front = claims.drop_last();
    let names = claim_names(claims);
    let c = claims[i];
    assert(claim_names(front) =~= names.drop_last());
    assert(names[i] == c.domain);
    if i < front.len() {
        assert(front[i] == c);
        lemma_adopted_claim(r, front, i);
        assert(names[names.len() - 1] == claims.last().domain);
        assert(claims.last().domain != c.domain);
    } else {
        assert(!claim_names(front).contains(c.domain)) by {
            if claim_names(front).contains(c.domain) {
                let j = choose|j: int|
                    0 <= j < claim_names(front).len() && claim_names(front)[j] == c.domain;
                assert(names[j] == names[i]);
            }
        }
        lemma_adopted_others(r, front, c.domain);
    }
}

proof fn lemma_known_claim(r: Registry, domains: Seq<Seq<char>>, d: Seq<char>) -> (i: int)
    requires
        domains.contains(d),
        r.held.contains_key(d),
    ensures
        0 <= i < known_claims(r, domains).len(),
        known_claims(r, domains)[i] == (Claim {
            domain: d,
            token: r.held[d].token,
            client_key: r.held[d].client_key,
        }),
    decreases domains.len(),
{
    let front = domains.drop_last();
    if domains.last() == d {
        known_claims(r, front).len() as int
    } else {
        let k = choose|k: int| 0 <= k < domains.len() && domains[k] == d;
        assert(front[k] == d);
        lemma_known_claim(r, front, d)
    }
}

/// One round of gossip settles a domain that a node lacks with the claim of
/// its peer: the claim is taken over where the node has none, and arbitrated
/// against its own where it has an older one.
pub proof fn law_gossip_round_settles(
    node: NodeState,
    peer: NodeState,
    node_name: Seq<char>,
    peer_name: Seq<char>,
    entries: Seq<(Seq<char>, u64)>,
    challenge: ConformanceChallenge,
    unused: ConformanceChallenge,
    i: int,
)
    requires
        well_formed(Gossip::Digest { entries }),
        0 <= i < entries.len(),
        lacks(node.registry, entries[i].0, entries[i].1),
        peer.registry.held.contains_key(entries[i].0),
    ensures
        ({
            let d = entries[i].0;
            let theirs = peer.registry.held[d];
            let (asking, request) = node.after(peer_name, Gossip::Digest { entries }, challenge);
            &&& request is Some
            &&& peer.after(node_name, request->0, unused).1 is Some
            &&& {
                let rumors = peer.after(node_name, request->0, unused).1->0;
                let done = asking.after(peer_name, rumors, unused).0.registry;
                &&& done.held.contains_key(d)
                &&& done.held[d] == node.registry.adopted(
                    d,
                    theirs.client_key,
                    theirs.token,
                ).held[d]
            }
        }),
{
    let d = entries[i].0;
    let (asking, request) = node.after(peer_name, Gossip::Digest { entries }, challenge);
    let domains = missing_from(node.registry, entries);
    lemma_missing_names(node.registry, entries);
    assert(domains.contains(d));
    lemma_known_names(peer.registry, domains);
    let claims = known_claims(peer.registry, domains);
    let k = lemma_known_claim(peer.registry, domains, d);
    law_honest_reply_believed(asking, peer, peer_name, node_name, unused);
    law_replies_well_formed(peer, node_name, Gossip::Request { domains, challenge }, unused);
    lemma_adopted_claim(node.registry, claims, k);
}

/// Gossip changes no host's liveness and no host's count: the rules on what
/// this node issues are its own.
pub proof fn law_gossip_leaves_limits(
    state: NodeState,
    from: Seq<char>,
    message: Gossip,
    challenge: ConformanceChallenge,
)
    ensures
        ({
            let after = state.after(from, message, challenge).0.registry;
            &&& after.seen == state.registry.seen
            &&& after.counts == state.registry.counts
        }),
{
    if let Gossip::Rumors { claims, answer } = message {
        lemma_adopted_limits(state.registry, claims);
    }
}

/// Gossip gives no host more than it may have: what a node learns from its
/// peers takes nobody's place in the count, and adds nobody to it.
pub proof fn law_gossip_keeps_count(
    state: NodeState,
    from: Seq<char>,
    message: Gossip,
    challenge: ConformanceChallenge,
)
    requires
        state.registry.counted(),
    ensures
        state.after(from, message, challenge).0.registry.counted(),
{
    law_gossip_leaves_limits(state, from, message, challenge);
    let after = state.after(from, message, challenge).0.registry;
    assert forall|h: Seq<char>| #[trigger]
        after.count_of(h) <= crate::liveness::MAX_REGISTRATIONS_PER_CLIENT by {
        assert(state.registry.count_of(h) <= crate::liveness::MAX_REGISTRATIONS_PER_CLIENT);
    }
}

proof fn lemma_adopted_limits(r: Registry, claims: Seq<Claim>)
    ensures
        all_adopted(r, claims).seen == r.seen,
        all_adopted(r, claims).counts == r.counts,
    decreases claims.len(),
{
    if claims.len() > 0 {
        lemma_adopted_limits(r, claims.drop_last());
    }
}

/// A name-lookup message that has an identifier is always answered.
pub proof fn law_lookup_answered(r: Registry, bytes: Seq<u8>)
    ensures
        lookup_reply(r, bytes) is Some <==> bytes.len() >= 2,
{
}

/// What was published is served: a client that probes, registers a free
/// domain and publishes records for it, is answered each time as it should
/// be, and whoever asks for the domain gets the records of the type asked
/// for.
pub proof fn law_published_records_served(
    r: Registry,
    sender: Sender,
    domain: Seq<char>,
    records: Seq<Record>,
    now: u64,
    nonce: [u8; 8],
    bytes: Seq<u8>,
)
    requires
        !r.held.contains_key(domain),
        r.count_of(sender.host) < crate::liveness::MAX_REGISTRATIONS_PER_CLIENT,
        question_in(bytes) matches Ok(q) && q.name == domain,
    ensures
        ({
            let probed = probe_outcome(r, Ok(sender), now);
            let registered = register_outcome(probed.0, Ok(sender), domain, true, now, nonce);
            let published = set_records_outcome(registered.0, Ok(sender), domain, records);
            let q = question_in(bytes)->Ok_0;
            &&& probed.1 is ProbeAck
            &&& registered.1 is Registered
            &&& published.1 is RecordsSet
            &&& published.0.held[domain].records == records
            &&& lookup_reply(published.0, bytes) == Some(
                response_bytes(q, true, matching_records(records, q.qtype)),
            )
        }),
{
    crate::api::law_probe_then_register(r, sender, domain, now, nonce);
    let probed = probe_outcome(r, Ok(sender), now);
    let registered = register_outcome(probed.0, Ok(sender), domain, true, now, nonce);
    crate::api::law_only_owner_publishes(registered.0, sender, domain, records);
}

/// The answer to a question that was understood carries that question.
pub proof fn law_lookup_echoes_question(r: Registry, bytes: Seq<u8>)
    requires
        question_in(bytes) is Ok,
    ensures
        lookup_reply(r, bytes) is Some,
        question_in(lookup_reply(r, bytes)->0) == question_in(bytes),
{
    let q = question_in(bytes)->Ok_0;
    crate::dns::law_understood_query_is_answered(
        bytes,
        true,
        matching_records(r.held[q.name].records, q.qtype),
    );
    crate::dns::law_understood_query_is_answered(bytes, false, Seq::empty());
}

/// A node lacks what it does not hold, and what it holds under a token of an
/// earlier time than announced.
pub proof fn law_lacks_exactly(r: Registry, domain: Seq<char>, issued_at_millis: u64)
    ensures
        !r.held.contains_key(domain) ==> lacks(r, domain, issued_at_millis),
        r.held.contains_key(domain) ==> (lacks(r, domain, issued_at_millis)
            <==> r.held[domain].token.issued_at_millis < issued_at_millis),
{
}

/// Every domain of a digest that a node does not hold, or holds under an
/// earlier time, is missing, in the order of the digest, and no other is.
pub proof fn law_missing_in_order(
    r: Registry,
    a: Seq<(Seq<char>, u64)>,
    b: Seq<(Seq<char>, u64)>,
    entry: (Seq<char>, u64),
)
    ensures
        missing_from(r, a + b) == missing_from(r, a) + missing_from(r, b),
        missing_from(r, seq![entry]) == if r.held.contains_key(entry.0)
            && r.held[entry.0].token.issued_at_millis >= entry.1 {
            Seq::empty()
        } else {
            seq![entry.0]
        },
    decreases b.len(),
{
    let all = a + b;
    let none: Seq<(Seq<char>, u64)> = Seq::empty();
    assert(seq![entry].drop_last() =~= none);
    assert(missing_from(r, none) =~= Seq::empty());
    assert(missing_from(r, seq![entry]) =~= if r.held.contains_key(entry.0)
        && r.held[entry.0].token.issued_at_millis >= entry.1 {
        Seq::empty()
    } else {
        seq![entry.0]
    });
    if b.len() == 0 {
        assert(all =~= a);
        assert(missing_from(r, a) + missing_from(r, b) =~= missing_from(r, a));
    } else {
        law_missing_in_order(r, a, b.drop_last(), entry);
        assert(all.drop_last() =~= a + b.drop_last());
        assert(all.last() == b.last());
        assert(missing_from(r, all) =~= missing_from(r, a) + missing_from(r, b));
    }
}

/// A node tells of every domain that it is asked for and holds, in the order
/// of the request, with the holder's key and token, and of no other.
pub proof fn law_claims_told_in_order(
    r: Registry,
    a: Seq<Seq<char>>,
    b: Seq<Seq<char>>,
    domain: Seq<char>,
)
    ensures
        known_claims(r, a + b) == known_claims(r, a) + known_claims(r, b),
        !r.held.contains_key(domain) ==> known_claims(r, seq![domain]).len() == 0,
        r.held.contains_key(domain) ==> known_claims(r, seq![domain]) == seq![
            Claim {
                domain,
                token: r.held[domain].token,
                client_key: r.held[domain].client_key,
            },
        ],
    decreases b.len(),
{
    let all = a + b;
    let none: Seq<Seq<char>> = Seq::empty();
    assert(seq![domain].drop_last() =~= none);
    assert(known_claims(r, none) =~= Seq::empty());
    if r.held.contains_key(domain) {
        assert(known_claims(r, seq![domain]) =~= seq![
            Claim {
                domain,
                token: r.held[domain].token,
                client_key: r.held[domain].client_key,
            },
        ]);
    }
    if b.len() == 0 {
        assert(all =~= a);
        assert(known_claims(r, a) + known_claims(r, b) =~= known_claims(r, a));
    } else {
        law_claims_told_in_order(r, a, b.drop_last(), domain);
        assert(all.drop_last() =~= a + b.drop_last());
        assert(all.last() == b.last());
        assert(known_claims(r, all) =~= known_claims(r, a) + known_claims(r, b));
    }
}

/// Claims are learned one by one, in order, each against what the ones before
/// it left.
pub proof fn law_claims_learned_in_order(r: Registry, a: Seq<Claim>, b: Seq<Claim>, claim: Claim)
    ensures
        all_adopted(r, a + b) == all_adopted(all_adopted(r, a), b),
        all_adopted(r, seq![claim]) == r.adopted(claim.domain, claim.client_key, claim.token),
        all_adopted(r, Seq::empty()) == r,
    decreases b.len(),
{
    let all = a + b;
    let none: Seq<Claim> = Seq::empty();
    assert(seq![claim].drop_last() =~= none);
    assert(all_adopted(r, none) == r);
    if b.len() == 0 {
        assert(all =~= a);
    } else {
        law_claims_learned_in_order(r, a, b.drop_last(), claim);
        assert(all.drop_last() =~= a + b.drop_last());
        assert(all.last() == b.last());
    }
}

/// Rumors are believed exactly where the peer was asked, its answer is the one
/// that the challenge calls for, and it tells only of domains that it was
/// asked for, of none twice.
pub proof fn law_believed_exactly(
    state: NodeState,
    from: Seq<char>,
    claims: Seq<Claim>,
    answer: RegistrationToken,
)
    ensures
        state.believes(from, claims, answer) <==> {
            &&& state.asked.contains_key(from)
            &&& answer == state.asked[from].challenge.answer()
            &&& forall|i: int|
                0 <= i < claims.len() ==> state.asked[from].domains.contains(
                    (#[trigger] claims[i]).domain,
                )
            &&& forall|i: int, j: int|
                0 <= i < j < claims.len() ==> (#[trigger] claims[i]).domain != (
                #[trigger] claims[j]).domain
        },
{
    let told = claim_names(claims);
    crate::gossip::law_response_within_request(state.asked[from].domains, told);
    let kept = forall|i: int|
        0 <= i < claims.len() ==> state.asked[from].domains.contains((#[trigger] claims[i]).domain);
    let once = forall|i: int, j: int|
        0 <= i < j < claims.len() ==> (#[trigger] claims[i]).domain != (#[trigger] claims[j]).domain;
    if answers_request(state.asked[from].domains, told) {
        assert forall|i: int| 0 <= i < claims.len() implies state.asked[from].domains.contains(
            (#[trigger] claims[i]).domain,
        ) by {
            assert(told[i] == claims[i].domain);
        }
        assert forall|i: int, j: int| 0 <= i < j < claims.len() implies (
        #[trigger] claims[i]).domain != (#[trigger] claims[j]).domain by {
            assert(told[i] != told[j]);
        }
    }
    if kept && once {
        assert forall|i: int| 0 <= i < told.len() implies state.asked[from].domains.contains(
            #[trigger] told[i],
        ) by {
            assert(told[i] == claims[i].domain);
        }
        assert forall|i: int, j: int| 0 <= i < j < told.len() implies #[trigger] told[i]
            != #[trigger] told[j] by {
            assert(claims[i].domain != claims[j].domain);
        }
    }
}

/// A digest that may be acted on makes the sender known and changes no
/// registration. Where something is missing the sender is asked for all of it,
/// and both that and the challenge are remembered for it alone; else there is
/// nothing to say.
pub proof fn law_digest_effects(
    state: NodeState,
    from: Seq<char>,
    entries: Seq<(Seq<char>, u64)>,
    challenge: ConformanceChallenge,
    other: Seq<char>,
)
    requires
        well_formed(Gossip::Digest { entries }),
    ensures
        ({
            let (after, reply) = state.after(from, Gossip::Digest { entries }, challenge);
            let missing = missing_from(state.registry, entries);
            &&& after.registry == state.registry
            &&& after.peers == learned(state.peers, from)
            &&& missing.len() == 0 ==> reply is None && after.asked == state.asked
            &&& missing.len() > 0 ==> {
                &&& reply == Some(Gossip::Request { domains: missing, challenge })
                &&& after.asked.contains_key(from)
                &&& after.asked[from].domains == missing
                &&& after.asked[from].challenge == challenge
            }
            &&& other != from ==> after.asked.contains_key(other) == state.asked.contains_key(other)
            &&& other != from && state.asked.contains_key(other) ==> after.asked[other]
                == state.asked[other]
        }),
{
}

/// A request that may be acted on makes the sender known and changes nothing
/// else. It is answered with what is known of the domains and the right answer
/// to its challenge, or not at all where nothing is known.
pub proof fn law_request_effects(
    state: NodeState,
    from: Seq<char>,
    domains: Seq<Seq<char>>,
    posed: ConformanceChallenge,
    challenge: ConformanceChallenge,
)
    requires
        well_formed(Gossip::Request { domains, challenge: posed }),
    ensures
        ({
            let (after, reply) = state.after(
                from,
                Gossip::Request { domains, challenge: posed },
                challenge,
            );
            let claims = known_claims(state.registry, domains);
            &&& after.registry == state.registry
            &&& after.peers == learned(state.peers, from)
            &&& after.asked == state.asked
            &&& claims.len() == 0 ==> reply is None
            &&& claims.len() > 0 ==> reply == Some(
                Gossip::Rumors { claims, answer: posed.answer() },
            )
        }),
{
}

/// Rumors that may be acted on make the sender known and use up what it was
/// asked. They are learned where they are believed, and change no registration
/// where they are not; there is no reply.
pub proof fn law_rumors_effects(
    state: NodeState,
    from: Seq<char>,
    claims: Seq<Claim>,
    answer: RegistrationToken,
    challenge: ConformanceChallenge,
    other: Seq<char>,
)
    requires
        well_formed(Gossip::Rumors { claims, answer }),
    ensures
        ({
            let (after, reply) = state.after(from, Gossip::Rumors { claims, answer }, challenge);
            &&& reply is None
            &&& after.peers == learned(state.peers, from)
            &&& !after.asked.contains_key(from)
            &&& other != from ==> after.asked.contains_key(other) == state.asked.contains_key(other)
            &&& other != from && state.asked.contains_key(other) ==> after.asked[other]
                == state.asked[other]
            &&& state.believes(from, claims, answer) ==> after.registry == all_adopted(
                state.registry,
                claims,
            )
            &&& !state.believes(from, claims, answer) ==> after.registry == state.registry
        }),
{
}

/// A digest lists every domain that is held, once, with the time of its token,
/// and no other.
pub proof fn law_digest_lists_all(r: Registry, message: Gossip, domain: Seq<char>, i: int, j: int)
    requires
        digests(r, message),
    ensures
        message matches Gossip::Digest { entries } && {
            &&& r.held.contains_key(domain) <==> exists|k: int|
                0 <= k < entries.len() && (#[trigger] entries[k]).0 == domain
            &&& 0 <= i < entries.len() ==> r.held.contains_key(entries[i].0) && entries[i].1
                == r.held[entries[i].0].token.issued_at_millis
            &&& 0 <= i < j < entries.len() ==> entries[i].0 != entries[j].0
        },
{
    let entries = message->entries;
    let names = entry_names(entries);
    if names.contains(domain) {
        let k = choose|k: int| 0 <= k < names.len() && names[k] == domain;
        assert(entries[k].0 == domain);
    }
    if exists|k: int| 0 <= k < entries.len() && (#[trigger] entries[k]).0 == domain {
        let k = choose|k: int| 0 <= k < entries.len() && (#[trigger] entries[k]).0 == domain;
        assert(names[k] == domain);
        assert(names.contains(domain));
    }
    if 0 <= i < entries.len() {
        assert(names[i] == entries[i].0);
        assert(names.contains(entries[i].0));
    }
    if 0 <= i < j < entries.len() {
        assert(names[i] != names[j]);
    }
}

/// A query gets the records of the type that it asks for, or all where it asks
/// for any, in the order in which they were published.
pub proof fn law_records_selected_in_order(
    a: Seq<Record>,
    b: Seq<Record>,
    record: Record,
    qtype: u16,
)
    ensures
        matching_records(a + b, qtype) == matching_records(a, qtype) + matching_records(b, qtype),
        ({
            let code = match record.record_type {
                crate::zone::RecordType::A => 1u16,
                crate::zone::RecordType::Aaaa => 28,
                crate::zone::RecordType::Cname => 5,
                crate::zone::RecordType::Mx => 15,
                crate::zone::RecordType::Txt => 16,
                crate::zone::RecordType::Ns => 2,
            };
            &&& qtype == code || qtype == 255 ==> matching_records(seq![record], qtype) == seq![
                record,
            ]
            &&& qtype != code && qtype != 255 ==> matching_records(seq![record], qtype).len() == 0
        }),
    decreases b.len(),
{
    reveal(Seq::filter);
    let all = a + b;
    let none: Seq<Record> = Seq::empty();
    assert(seq![record].drop_last() =~= none);
    assert(matching_records(none, qtype) =~= none);
    assert(seq![record].last() == record);
    if qtype == 255 || type_code(record.record_type) == qtype {
        assert(matching_records(seq![record], qtype) =~= seq![record]);
    } else {
        assert(matching_records(seq![record], qtype) =~= none);
    }
    if b.len() == 0 {
        assert(all =~= a);
        assert(matching_records(a, qtype) + matching_records(b, qtype) =~= matching_records(
            a,
            qtype,
        ));
    } else {
        law_records_selected_in_order(a, b.drop_last(), record, qtype);
        assert(all.drop_last() =~= a + b.drop_last());
        assert(all.last() == b.last());
        assert(matching_records(all, qtype) =~= matching_records(a, qtype) + matching_records(
            b,
            qtype,
        ));
    }
}

/// A lookup of a domain that is held is answered with its records of the type
/// asked for, and one of any other name with a name error and no records. What
/// is not understood is answered with a format error under its own identifier,
/// if it has one.
pub proof fn law_lookup_by_registry(r: Registry, bytes: Seq<u8>)
    ensures
        match question_in(bytes) {
            Ok(q) => {
                &&& r.held.contains_key(q.name) ==> lookup_reply(r, bytes) == Some(
                    response_bytes(q, true, matching_records(r.held[q.name].records, q.qtype)),
                )
                &&& !r.held.contains_key(q.name) ==> lookup_reply(r, bytes) == Some(
                    response_bytes(q, false, Seq::empty()),
                )
            },
            Err(_) => {
                &&& bytes.len() >= 2 ==> lookup_reply(r, bytes) == Some(
                    format_error_bytes((bytes[0] * 256 + bytes[1]) as u16),
                )
                &&& bytes.len() < 2 ==> lookup_reply(r, bytes) is None
            },
        },
{
}

} // verus!
