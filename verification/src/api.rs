//! Applies the requests of clients to the registration store.

use vstd::prelude::*;
use vstd::utf8::encode_utf8;
use crate::client::{canonical_host, client_key_of, ClientIdentity};
use crate::client_api::{
    authenticate, probe_message, probe_text, register_message, register_text, set_records_message,
    set_records_text, ClientRequest, ClientResponse, ProbeBody, RegisterBody, RequestAuthError,
    SetRecordsBody, SignedEnvelope,
};
use crate::domain::DomainName;
use crate::liveness::{shows, TimeSource, MAX_REGISTRATIONS_PER_CLIENT};
use crate::store::{owner_host, Registry, RegistryStore};
use crate::token::{draw_nonce, drawn, RegistrationToken};
use crate::zone::Record;

verus! {

// ---------------------------------------------------------------------
// What comes of a request
// ---------------------------------------------------------------------

/// A response as plain values.
pub enum Reply {
    ProbeAck,
    Registered { token: RegistrationToken },
    RecordsSet,
    Error { message: Seq<char> },
}

impl View for ClientResponse {
    type V = Reply;

    open spec fn view(&self) -> Reply {
        match self {
            ClientResponse::ProbeAck => Reply::ProbeAck,
            ClientResponse::Registered { token } => Reply::Registered { token: *token },
            ClientResponse::RecordsSet => Reply::RecordsSet,
            ClientResponse::Error { message } => Reply::Error { message: message@ },
        }
    }
}

/// Who sent a request: the client key and the host.
pub struct Sender {
    pub key: Seq<char>,
    pub host: Seq<char>,
}

/// The sender that an identity stands for.
pub open spec fn sender_of(auth: Result<ClientIdentity, RequestAuthError>) -> Result<
    Sender,
    RequestAuthError,
> {
    match auth {
        Ok(identity) => Ok(
            Sender { key: identity.spec_key(), host: identity.spec_quota_key() },
        ),
        Err(e) => Err(e),
    }
}

/// The sender of an envelope that should have signed `message`.
pub open spec fn envelope_sender<T>(
    envelope: SignedEnvelope<T>,
    message: Seq<u8>,
    now: u64,
) -> Result<Sender, RequestAuthError> {
    match envelope.refusal(message, now) {
        Some(e) => Err(e),
        None => Ok(
            Sender {
                key: client_key_of(envelope.verifying_key@, envelope.rdns@),
                host: canonical_host(envelope.rdns@),
            },
        ),
    }
}

/// What comes of a probe: the sender's host is live from now on.
pub open spec fn probe_outcome(
    r: Registry,
    auth: Result<Sender, RequestAuthError>,
    now: u64,
) -> (Registry, Reply) {
    match auth {
        Err(e) => (r, Reply::Error { message: e.message() }),
        Ok(sender) => (r.probed(sender.host, now), Reply::ProbeAck),
    }
}

/// What comes of a registration.
pub open spec fn register_outcome(
    r: Registry,
    auth: Result<Sender, RequestAuthError>,
    domain: Seq<char>,
    rdns_verified: bool,
    now: u64,
    nonce: [u8; 8],
) -> (Registry, Reply) {
    match auth {
        Err(e) => (r, Reply::Error { message: e.message() }),
        Ok(sender) => if !rdns_verified {
            (
                r,
                Reply::Error {
                    message:
                        "claimed rdns hostname does not forward-confirm against the request's source address"@,
                },
            )
        } else {
            (
                r.registered(domain, sender.key, sender.host, now, nonce),
                match r.refusal(domain, sender.host, now) {
                    None => Reply::Registered {
                        token: RegistrationToken { issued_at_millis: now, nonce },
                    },
                    Some(e) => Reply::Error { message: e.message() },
                },
            )
        },
    }
}

/// What comes of a publication.
pub open spec fn set_records_outcome(
    r: Registry,
    auth: Result<Sender, RequestAuthError>,
    domain: Seq<char>,
    records: Seq<Record>,
) -> (Registry, Reply) {
    match auth {
        Err(e) => (r, Reply::Error { message: e.message() }),
        Ok(sender) => if r.owns(domain, sender.key) {
            (r.published(domain, records), Reply::RecordsSet)
        } else {
            (r, Reply::Error { message: "client does not own this domain"@ })
        },
    }
}

/// What comes of a request.
pub open spec fn request_outcome(
    r: Registry,
    request: ClientRequest,
    rdns_verified: bool,
    now: u64,
    nonce: [u8; 8],
) -> (Registry, Reply) {
    match request {
        ClientRequest::Probe(envelope) => probe_outcome(
            r,
            envelope_sender(envelope, encode_utf8(probe_text(envelope.timestamp_millis)), now),
            now,
        ),
        ClientRequest::Register(envelope) => register_outcome(
            r,
            envelope_sender(
                envelope,
                encode_utf8(register_text(envelope.body.domain@, envelope.timestamp_millis)),
                now,
            ),
            envelope.body.domain@,
            rdns_verified,
            now,
            nonce,
        ),
        ClientRequest::SetRecords(envelope) => set_records_outcome(
            r,
            envelope_sender(
                envelope,
                encode_utf8(
                    set_records_text(
                        envelope.body.domain@,
                        envelope.body.records@,
                        envelope.timestamp_millis,
                    ),
                ),
                now,
            ),
            envelope.body.domain@,
            envelope.body.records@,
        ),
    }
}

// ---------------------------------------------------------------------
// Applying requests
// ---------------------------------------------------------------------

/// Applies a probe whose sender was authenticated, or not.
pub fn answer_probe(
    store: &mut RegistryStore,
    auth: Result<ClientIdentity, RequestAuthError>,
    now: u64,
) -> (r: ClientResponse)
    requires
        old(store).wf(),
    ensures
        final(store).wf(),
        (final(store)@, r@) == probe_outcome(old(store)@, sender_of(auth), now),
{
    match auth {
        Ok(identity) => {
            store.probe_at(&identity, now);
            ClientResponse::ProbeAck
        },
        Err(e) => ClientResponse::Error { message: e.to_string() },
    }
}

/// Applies a registration whose sender was authenticated, or not, and whose
/// host name was confirmed, or not.
pub fn answer_register(
    store: &mut RegistryStore,
    auth: Result<ClientIdentity, RequestAuthError>,
    domain: DomainName,
    rdns_verified: bool,
    now: u64,
    nonce: [u8; 8],
) -> (r: ClientResponse)
    requires
        old(store).wf(),
    ensures
        final(store).wf(),
        (final(store)@, r@) == register_outcome(
            old(store)@,
            sender_of(auth),
            domain@,
            rdns_verified,
            now,
            nonce,
        ),
{
    match auth {
        Ok(identity) => {
            if !rdns_verified {
                return ClientResponse::Error {
                    message:
                        "claimed rdns hostname does not forward-confirm against the request's source address".to_owned(),
                };
            }
            match store.register_at(domain, &identity, now, nonce) {
                Ok(token) => ClientResponse::Registered { token },
                Err(e) => ClientResponse::Error { message: e.to_string() },
            }
        },
        Err(e) => ClientResponse::Error { message: e.to_string() },
    }
}

/// Applies a publication whose sender was authenticated, or not.
pub fn answer_set_records(
    store: &mut RegistryStore,
    auth: Result<ClientIdentity, RequestAuthError>,
    domain: &DomainName,
    records: Vec<Record>,
) -> (r: ClientResponse)
    requires
        old(store).wf(),
    ensures
        final(store).wf(),
        (final(store)@, r@) == set_records_outcome(
            old(store)@,
            sender_of(auth),
            domain@,
            records@,
        ),
{
    match auth {
        Ok(identity) => if store.set_records(domain, &identity, records) {
            ClientResponse::RecordsSet
        } else {
            ClientResponse::Error { message: "client does not own this domain".to_owned() }
        },
        Err(e) => ClientResponse::Error { message: e.to_string() },
    }
}

/// Authenticates and applies a request at `now`, with the given random bytes
/// for a token. `rdns_verified` says whether the sender's host name was
/// confirmed against the address that the request came from; only a
/// registration depends on it.
pub fn handle_client_request_at(
    store: &mut RegistryStore,
    request: ClientRequest,
    rdns_verified: bool,
    now: u64,
    nonce: [u8; 8],
) -> (r: ClientResponse)
    requires
        old(store).wf(),
    ensures
        final(store).wf(),
        (final(store)@, r@) == request_outcome(old(store)@, request, rdns_verified, now, nonce),
{
    match request {
        ClientRequest::Probe(envelope) => handle_probe(store, now, envelope),
        ClientRequest::Register(envelope) => handle_register(
            store,
            now,
            envelope,
            rdns_verified,
            nonce,
        ),
        ClientRequest::SetRecords(envelope) => handle_set_records(store, now, envelope),
    }
}

fn handle_probe(store: &mut RegistryStore, now: u64, envelope: SignedEnvelope<ProbeBody>) -> (r:
    ClientResponse)
    requires
        old(store).wf(),
    ensures
        final(store).wf(),
        (final(store)@, r@) == probe_outcome(
            old(store)@,
            envelope_sender(envelope, encode_utf8(probe_text(envelope.timestamp_millis)), now),
            now,
        ),
{
    let message = probe_message(envelope.timestamp_millis);
    let auth = authenticate(&envelope, message.as_slice(), now);
    assert(sender_of(auth) == envelope_sender(envelope, message@, now));
    answer_probe(store, auth, now)
}

fn handle_register(
    store: &mut RegistryStore,
    now: u64,
    envelope: SignedEnvelope<RegisterBody>,
    rdns_verified: bool,
    nonce: [u8; 8],
) -> (r: ClientResponse)
    requires
        old(store).wf(),
    ensures
        final(store).wf(),
        (final(store)@, r@) == register_outcome(
            old(store)@,
            envelope_sender(
                envelope,
                encode_utf8(register_text(envelope.body.domain@, envelope.timestamp_millis)),
                now,
            ),
            envelope.body.domain@,
            rdns_verified,
            now,
            nonce,
        ),
{
    let message = register_message(&envelope.body.domain, envelope.timestamp_millis);
    let auth = authenticate(&envelope, message.as_slice(), now);
    assert(sender_of(auth) == envelope_sender(envelope, message@, now));
    answer_register(store, auth, envelope.body.domain, rdns_verified, now, nonce)
}

fn handle_set_records(
    store: &mut RegistryStore,
    now: u64,
    envelope: SignedEnvelope<SetRecordsBody>,
) -> (r: ClientResponse)
    requires
        old(store).wf(),
    ensures
        final(store).wf(),
        (final(store)@, r@) == set_records_outcome(
            old(store)@,
            envelope_sender(
                envelope,
                encode_utf8(
                    set_records_text(
                        envelope.body.domain@,
                        envelope.body.records@,
                        envelope.timestamp_millis,
                    ),
                ),
                now,
            ),
            envelope.body.domain@,
            envelope.body.records@,
        ),
{
    let message = set_records_message(
        &envelope.body.domain,
        envelope.body.records.as_slice(),
        envelope.timestamp_millis,
    );
    let auth = authenticate(&envelope, message.as_slice(), now);
    assert(sender_of(auth) == envelope_sender(envelope, message@, now));
    answer_set_records(store, auth, &envelope.body.domain, envelope.body.records)
}

/// Authenticates and applies a request at the current time.
pub fn handle_client_request<T: TimeSource>(
    store: &mut RegistryStore,
    time: &T,
    request: ClientRequest,
    rdns_verified: bool,
) -> (r: ClientResponse)
    requires
        old(store).wf(),
    ensures
        final(store).wf(),
        exists|now: u64, nonce: [u8; 8]|
            #![trigger shows(time, now), request_outcome(old(store)@, request, rdns_verified, now, nonce)]
            shows(time, now) && drawn(nonce) && (final(store)@, r@) == request_outcome(
                old(store)@,
                request,
                rdns_verified,
                now,
                nonce,
            ),
{
    let now: u64 = time.now_millis();
    assert(shows(time, now));
    let nonce = draw_nonce();
    handle_client_request_at(store, request, rdns_verified, now, nonce)
}

// ---------------------------------------------------------------------
// Laws
// ---------------------------------------------------------------------

/// Why a request is refused for its sender, if it is.
pub open spec fn request_refusal(request: ClientRequest, now: u64) -> Option<RequestAuthError> {
    match request {
        ClientRequest::Probe(envelope) => envelope.refusal(
            encode_utf8(probe_text(envelope.timestamp_millis)),
            now,
        ),
        ClientRequest::Register(envelope) => envelope.refusal(
            encode_utf8(register_text(envelope.body.domain@, envelope.timestamp_millis)),
            now,
        ),
        ClientRequest::SetRecords(envelope) => envelope.refusal(
            encode_utf8(
                set_records_text(
                    envelope.body.domain@,
                    envelope.body.records@,
                    envelope.timestamp_millis,
                ),
            ),
            now,
        ),
    }
}

/// A request whose sender is not authenticated changes nothing, and the
/// answer says why.
pub proof fn law_refused_request_changes_nothing(
    r: Registry,
    request: ClientRequest,
    rdns_verified: bool,
    now: u64,
    nonce: [u8; 8],
)
    requires
        request_refusal(request, now) is Some,
    ensures
        request_outcome(r, request, rdns_verified, now, nonce) == (
            r,
            Reply::Error { message: request_refusal(request, now)->0.message() },
        ),
{
}

/// Without a confirmed host name nothing is registered, whoever signed.
pub proof fn law_unconfirmed_host_registers_nothing(
    r: Registry,
    envelope: SignedEnvelope<RegisterBody>,
    now: u64,
    nonce: [u8; 8],
)
    ensures
        request_outcome(r, ClientRequest::Register(envelope), false, now, nonce).0 == r,
        request_outcome(r, ClientRequest::Register(envelope), false, now, nonce).1 is Error,
{
}

/// Whatever clients ask for, no host holds more domains than it may.
pub proof fn law_requests_keep_limit(
    r: Registry,
    request: ClientRequest,
    rdns_verified: bool,
    now: u64,
    nonce: [u8; 8],
)
    requires
        r.capped(),
    ensures
        request_outcome(r, request, rdns_verified, now, nonce).0.capped(),
{
    match request {
        ClientRequest::Probe(envelope) => {
            crate::store::law_probe_capped(r, canonical_host(envelope.rdns@), now);
        },
        ClientRequest::Register(envelope) => {
            crate::store::law_register_capped(
                r,
                envelope.body.domain@,
                envelope.verifying_key@,
                envelope.rdns@,
                now,
                nonce,
            );
        },
        ClientRequest::SetRecords(envelope) => {
            let domain = envelope.body.domain@;
            if r.held.contains_key(domain) {
                crate::store::law_publish_capped(r, domain, envelope.body.records@);
            }
        },
    }
}

/// Every registration that this node grants is counted, and nothing lowers
/// the count of a host while it is live: no host is given more than the limit
/// from the time when it comes up to the time when it misses its window.
pub proof fn law_grants_counted(
    r: Registry,
    request: ClientRequest,
    rdns_verified: bool,
    now: u64,
    nonce: [u8; 8],
    host: Seq<char>,
)
    requires
        r.counted(),
    ensures
        request_outcome(r, request, rdns_verified, now, nonce).0.counted(),
        r.live(host, now) ==> request_outcome(r, request, rdns_verified, now, nonce).0.count_of(
            host,
        ) == r.count_of(host) + if request_outcome(r, request, rdns_verified, now, nonce).1
            is Registered && sender_host(request) == host {
            1int
        } else {
            0int
        },
        request_outcome(r, request, rdns_verified, now, nonce).1 is Registered ==> r.live(
            sender_host(request),
            now,
        ),
{
    let after = request_outcome(r, request, rdns_verified, now, nonce).0;
    assert forall|h: Seq<char>| #[trigger] after.count_of(h) <= MAX_REGISTRATIONS_PER_CLIENT by {
        assert(r.count_of(h) <= MAX_REGISTRATIONS_PER_CLIENT);
    }
}

/// The host that the sender of a request claims to be.
pub open spec fn sender_host(request: ClientRequest) -> Seq<char> {
    match request {
        ClientRequest::Probe(envelope) => canonical_host(envelope.rdns@),
        ClientRequest::Register(envelope) => canonical_host(envelope.rdns@),
        ClientRequest::SetRecords(envelope) => canonical_host(envelope.rdns@),
    }
}

/// Whatever a client asks for, a domain whose owner's host is live stays with
/// its owner, and the host stays live.
pub proof fn law_request_leaves_live_owner(
    r: Registry,
    request: ClientRequest,
    rdns_verified: bool,
    now: u64,
    nonce: [u8; 8],
    domain: Seq<char>,
    host: Seq<char>,
)
    requires
        r.held.contains_key(domain),
        owner_host(r.held[domain].client_key) == Some(host),
        r.live(host, now),
    ensures
        ({
            let after = request_outcome(r, request, rdns_verified, now, nonce).0;
            &&& after.held.contains_key(domain)
            &&& after.held[domain].client_key == r.held[domain].client_key
            &&& after.held[domain].token == r.held[domain].token
            &&& after.live(host, now)
        }),
{
}

/// The records of a domain whose owner's host is live change by a
/// publication for that domain with the owner's key, and by no other
/// request.
pub proof fn law_request_leaves_records(
    r: Registry,
    request: ClientRequest,
    rdns_verified: bool,
    now: u64,
    nonce: [u8; 8],
    domain: Seq<char>,
    host: Seq<char>,
)
    requires
        r.held.contains_key(domain),
        owner_host(r.held[domain].client_key) == Some(host),
        r.live(host, now),
        request_outcome(r, request, rdns_verified, now, nonce).0.held[domain].records
            != r.held[domain].records,
    ensures
        request matches ClientRequest::SetRecords(envelope) && envelope.body.domain@ == domain
            && client_key_of(envelope.verifying_key@, envelope.rdns@) == r.held[domain].client_key,
        request_refusal(request, now) is None,
{
}

/// A request, and what decides on it besides.
pub struct Event {
    pub request: ClientRequest,
    pub rdns_verified: bool,
    pub now: u64,
    pub nonce: [u8; 8],
}

/// The store after all of the given requests, in order.
pub open spec fn after_requests(r: Registry, events: Seq<Event>) -> Registry
    decreases events.len(),
{
    if events.len() == 0 {
        r
    } else {
        let e = events.last();
        request_outcome(
            after_requests(r, events.drop_last()),
            e.request,
            e.rdns_verified,
            e.now,
            e.nonce,
        ).0
    }
}

/// A domain stays with its owner as long as the owner's host answers within
/// the window: through any requests of anybody, at each of which the host is
/// live.
pub proof fn law_domain_kept_while_live(
    r: Registry,
    events: Seq<Event>,
    domain: Seq<char>,
    host: Seq<char>,
)
    requires
        r.held.contains_key(domain),
        owner_host(r.held[domain].client_key) == Some(host),
        forall|i: int|
            0 <= i < events.len() ==> (#[trigger] after_requests(r, events.take(i))).live(
                host,
                events[i].now,
            ),
    ensures
        after_requests(r, events).held.contains_key(domain),
        after_requests(r, events).held[domain].client_key == r.held[domain].client_key,
        after_requests(r, events).held[domain].token == r.held[domain].token,
    decreases events.len(),
{
    if events.len() > 0 {
        let front = events.drop_last();
        let n = front.len() as int;
        assert forall|i: int| 0 <= i < front.len() implies (#[trigger] after_requests(
            r,
            front.take(i),
        )).live(host, front[i].now) by {
            assert(front.take(i) =~= events.take(i));
        }
        law_domain_kept_while_live(r, front, domain, host);
        assert(events.take(n) =~= front);
        let e = events.last();
        assert(after_requests(r, events.take(n)).live(host, events[n].now));
        law_request_leaves_live_owner(
            after_requests(r, front),
            e.request,
            e.rdns_verified,
            e.now,
            e.nonce,
            domain,
            host,
        );
    }
}

/// A sender who has just probed from a confirmed host, and whose host is
/// below the limit, gets a free domain.
pub proof fn law_probe_then_register(
    r: Registry,
    sender: Sender,
    domain: Seq<char>,
    now: u64,
    nonce: [u8; 8],
)
    requires
        !r.held.contains_key(domain),
        r.count_of(sender.host) < MAX_REGISTRATIONS_PER_CLIENT,
    ensures
        ({
            let probed = probe_outcome(r, Ok(sender), now);
            let done = register_outcome(probed.0, Ok(sender), domain, true, now, nonce);
            &&& probed.1 == Reply::ProbeAck
            &&& done.1 == (Reply::Registered {
                token: RegistrationToken { issued_at_millis: now, nonce },
            })
            &&& done.0.owns(domain, sender.key)
        }),
{
}

/// Only the holder's key can publish records, and it can.
pub proof fn law_only_owner_publishes(
    r: Registry,
    sender: Sender,
    domain: Seq<char>,
    records: Seq<Record>,
)
    ensures
        ({
            let done = set_records_outcome(r, Ok(sender), domain, records);
            &&& r.owns(domain, sender.key) <==> done.1 == Reply::RecordsSet
            &&& r.owns(domain, sender.key) ==> done.0.held[domain].records == records
            &&& !r.owns(domain, sender.key) ==> done.0 == r
        }),
{
}

/// What a request does and what is answered follow from the envelope alone,
/// each kind over its own signed text: a probe that is accepted makes the
/// sender's host live and is acknowledged.
pub proof fn law_accepted_probe(
    r: Registry,
    envelope: SignedEnvelope<ProbeBody>,
    rdns_verified: bool,
    now: u64,
    nonce: [u8; 8],
)
    ensures
        ({
            let done = request_outcome(
                r,
                ClientRequest::Probe(envelope),
                rdns_verified,
                now,
                nonce,
            );
            match envelope.refusal(encode_utf8(probe_text(envelope.timestamp_millis)), now) {
                Some(e) => done.0 == r && done.1 == (Reply::Error { message: e.message() }),
                None => done.0 == r.probed(canonical_host(envelope.rdns@), now) && done.1
                    == Reply::ProbeAck,
            }
        }),
{
}

/// A registration is tried for the sender's own key and host, and only where
/// the envelope is accepted over the domain it asks for and the host name is
/// confirmed; the answer carries the token that is held, or says why there is
/// none.
pub proof fn law_accepted_registration(
    r: Registry,
    envelope: SignedEnvelope<RegisterBody>,
    rdns_verified: bool,
    now: u64,
    nonce: [u8; 8],
)
    ensures
        ({
            let domain = envelope.body.domain@;
            let key = client_key_of(envelope.verifying_key@, envelope.rdns@);
            let host = canonical_host(envelope.rdns@);
            let done = request_outcome(
                r,
                ClientRequest::Register(envelope),
                rdns_verified,
                now,
                nonce,
            );
            let refusal = envelope.refusal(
                encode_utf8(register_text(domain, envelope.timestamp_millis)),
                now,
            );
            if refusal is Some {
                done.0 == r && done.1 == (Reply::Error { message: refusal->0.message() })
            } else if !rdns_verified {
                done.0 == r && done.1 == (Reply::Error {
                    message:
                        "claimed rdns hostname does not forward-confirm against the request's source address"@,
                })
            } else {
                &&& done.0 == r.registered(domain, key, host, now, nonce)
                &&& match r.refusal(domain, host, now) {
                    Some(e) => done.1 == (Reply::Error { message: e.message() }),
                    None => done.1 == (Reply::Registered { token: done.0.held[domain].token }),
                }
            }
        }),
{
}

/// A publication takes effect exactly where the envelope is accepted over the
/// domain and these very records, and the sender's whole key holds the domain:
/// then the records are published and that is said, else nothing changes and
/// the answer is an error.
pub proof fn law_accepted_publication(
    r: Registry,
    envelope: SignedEnvelope<SetRecordsBody>,
    rdns_verified: bool,
    now: u64,
    nonce: [u8; 8],
)
    ensures
        ({
            let domain = envelope.body.domain@;
            let records = envelope.body.records@;
            let key = client_key_of(envelope.verifying_key@, envelope.rdns@);
            let done = request_outcome(
                r,
                ClientRequest::SetRecords(envelope),
                rdns_verified,
                now,
                nonce,
            );
            let refusal = envelope.refusal(
                encode_utf8(set_records_text(domain, records, envelope.timestamp_millis)),
                now,
            );
            if refusal is Some {
                done.0 == r && done.1 == (Reply::Error { message: refusal->0.message() })
            } else if r.held.contains_key(domain) && r.held[domain].client_key == key {
                done.0 == r.published(domain, records) && done.1 == Reply::RecordsSet
            } else {
                done.0 == r && done.1 == (Reply::Error {
                    message: "client does not own this domain"@,
                })
            }
        }),
{
}

/// The sender of an envelope that is accepted is its own client key and host,
/// and one that is refused has no sender; an identity stands for the same.
pub proof fn law_sender_is_envelopes<T>(
    envelope: SignedEnvelope<T>,
    message: Seq<u8>,
    now: u64,
    identity: ClientIdentity,
    e: RequestAuthError,
)
    ensures
        match envelope_sender(envelope, message, now) {
            Ok(sender) => envelope.refusal(message, now) is None && sender.key == client_key_of(
                envelope.verifying_key@,
                envelope.rdns@,
            ) && sender.host == canonical_host(envelope.rdns@),
            Err(e) => envelope.refusal(message, now) == Some(e),
        },
        sender_of(Err(e)) == Err::<Sender, _>(e),
        sender_of(Ok(identity)) matches Ok(sender) && sender.key == client_key_of(
            identity.verifying_key@,
            identity.rdns@,
        ) && sender.host == canonical_host(identity.rdns@),
{
}

/// Once authenticated, a sender's probe, registration and publication do what
/// they say for the sender's own host and key; a sender who is not
/// authenticated does nothing.
pub proof fn law_authenticated_sender_acts(
    r: Registry,
    sender: Sender,
    e: RequestAuthError,
    domain: Seq<char>,
    records: Seq<Record>,
    rdns_verified: bool,
    now: u64,
    nonce: [u8; 8],
)
    ensures
        probe_outcome(r, Ok(sender), now) == (r.probed(sender.host, now), Reply::ProbeAck),
        probe_outcome(r, Err(e), now).0 == r,
        probe_outcome(r, Err(e), now).1 is Error,
        register_outcome(r, Ok(sender), domain, rdns_verified, now, nonce).0 == if rdns_verified {
            r.registered(domain, sender.key, sender.host, now, nonce)
        } else {
            r
        },
        register_outcome(r, Ok(sender), domain, rdns_verified, now, nonce).1 is Registered
            <==> rdns_verified && r.refusal(domain, sender.host, now) is None,
        register_outcome(r, Err(e), domain, rdns_verified, now, nonce).0 == r,
        register_outcome(r, Err(e), domain, rdns_verified, now, nonce).1 is Error,
        set_records_outcome(r, Err(e), domain, records).0 == r,
        set_records_outcome(r, Err(e), domain, records).1 is Error,
{
}

/// A reply says what the response says.
pub proof fn law_reply_is_response(response: ClientResponse)
    ensures
        match response {
            ClientResponse::ProbeAck => response@ is ProbeAck,
            ClientResponse::Registered { token } => response@ matches Reply::Registered {
                token: told,
            } && told == token,
            ClientResponse::RecordsSet => response@ is RecordsSet,
            ClientResponse::Error { message } => response@ matches Reply::Error { message: told }
                && told == message@,
        },
{
}

} // verus!
