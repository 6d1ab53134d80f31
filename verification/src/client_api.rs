//! The requests that a client sends to a node: to prove that it is alive, to
//! register a domain, and to publish records for one that it holds.
//!
//! Every request is signed over a canonical message that is made from its
//! own fields and a timestamp, so that a captured request is worth nothing
//! outside a short window (see [`is_fresh`]).

use vstd::prelude::*;
use vstd::utf8::encode_utf8;
use crate::bytes::push_bytes;
use crate::client::{
    accepts_key, accepts_signature, is_public_key, signature_holds, ClientAuthError,
    ClientIdentity,
};
use crate::domain::DomainName;
use crate::json::{
    lemma_cut, lemma_json_opens_once, lemma_list_injective, records_json, records_json_text,
    records_list, same_records,
};
use crate::text::{decimal, decimal_text, law_decimal_injective, lemma_decimal_digits};
use crate::token::RegistrationToken;
use crate::zone::Record;

verus! {

/// How far the timestamp of a request may be from the node's own clock, in
/// either direction.
pub const REQUEST_FRESHNESS_WINDOW_MILLIS: u64 = 10_000;

/// A request from a client to a node.
#[derive(Debug, Clone)]
pub enum ClientRequest {
    /// Proves that the sender's host is alive.
    Probe(SignedEnvelope<ProbeBody>),
    /// Claims a free domain.
    Register(SignedEnvelope<RegisterBody>),
    /// Publishes records for a domain that the sender holds.
    SetRecords(SignedEnvelope<SetRecordsBody>),
}

/// The body of a request with the identity and the signature that vouch for
/// it.
#[derive(Debug, Clone)]
pub struct SignedEnvelope<T> {
    pub verifying_key: Vec<u8>,
    pub rdns: String,
    pub timestamp_millis: u64,
    pub signature: Vec<u8>,
    pub body: T,
}

#[derive(Debug, Clone, Copy)]
pub struct ProbeBody;

#[derive(Debug, Clone)]
pub struct RegisterBody {
    pub domain: DomainName,
}

#[derive(Debug, Clone)]
pub struct SetRecordsBody {
    pub domain: DomainName,
    pub records: Vec<Record>,
}

/// What came of a request.
#[derive(Debug, Clone, PartialEq)]
pub enum ClientResponse {
    ProbeAck,
    Registered { token: RegistrationToken },
    RecordsSet,
    Error { message: String },
}

/// Why a request was not taken for its sender's.
#[derive(Debug, Clone, Copy, PartialEq, Eq, Structural)]
pub enum RequestAuthError {
    /// The public key is none.
    MalformedKey,
    /// The signature does not have the length of one.
    MalformedSignature,
    /// The signature does not verify.
    Signature(ClientAuthError),
    /// The timestamp is too far from the node's clock.
    Stale,
}

impl RequestAuthError {
    /// The message for people.
    pub open spec fn message(self) -> Seq<char> {
        match self {
            RequestAuthError::MalformedKey => "malformed public key"@,
            RequestAuthError::MalformedSignature => "malformed signature"@,
            RequestAuthError::Signature(e) => e.message(),
            RequestAuthError::Stale => "request timestamp is outside the freshness window"@,
        }
    }

    /// The message for people.
    pub fn to_string(&self) -> (r: String)
        ensures
            r@ == self.message(),
    {
        match self {
            RequestAuthError::MalformedKey => "malformed public key".to_owned(),
            RequestAuthError::MalformedSignature => "malformed signature".to_owned(),
            RequestAuthError::Signature(e) => e.to_string(),
            RequestAuthError::Stale => "request timestamp is outside the freshness window".to_owned(),
        }
    }
}

// ---------------------------------------------------------------------
// What is signed
// ---------------------------------------------------------------------

/// The text that a probe signs.
pub open spec fn probe_text(timestamp_millis: u64) -> Seq<char> {
    "binda-probe:"@ + decimal(timestamp_millis as nat)
}

/// The text that a registration signs.
pub open spec fn register_text(domain: Seq<char>, timestamp_millis: u64) -> Seq<char> {
    "binda-register:"@ + domain + ":"@ + decimal(timestamp_millis as nat)
}

/// The text that a publication signs.
pub open spec fn set_records_text(
    domain: Seq<char>,
    records: Seq<Record>,
    timestamp_millis: u64,
) -> Seq<char> {
    "binda-set-records:"@ + domain + ":"@ + decimal(timestamp_millis as nat) + ":"@ + records_json(
        records,
    )
}

/// The bytes of a text.
fn bytes_of(text: &str) -> (r: Vec<u8>)
    ensures
        r@ == encode_utf8(text@),
{
    let mut out: Vec<u8> = Vec::new();
    push_bytes(&mut out, text.as_bytes());
    assert(out@ =~= encode_utf8(text@));
    out
}

/// The message that a probe signs.
pub fn probe_message(timestamp_millis: u64) -> (r: Vec<u8>)
    ensures
        r@ == encode_utf8(probe_text(timestamp_millis)),
{
    let mut text = "binda-probe:".to_owned();
    text.append(decimal_text(timestamp_millis).as_str());
    bytes_of(text.as_str())
}

/// The message that a registration signs.
pub fn register_message(domain: &DomainName, timestamp_millis: u64) -> (r: Vec<u8>)
    ensures
        r@ == encode_utf8(register_text(domain@, timestamp_millis)),
{
    let mut text = "binda-register:".to_owned();
    text.append(domain.as_str());
    text.append(":");
    text.append(decimal_text(timestamp_millis).as_str());
    bytes_of(text.as_str())
}

/// The message that a publication signs.
pub fn set_records_message(domain: &DomainName, records: &[Record], timestamp_millis: u64) -> (r:
    Vec<u8>)
    ensures
        r@ == encode_utf8(set_records_text(domain@, records@, timestamp_millis)),
{
    let mut text = "binda-set-records:".to_owned();
    text.append(domain.as_str());
    text.append(":");
    text.append(decimal_text(timestamp_millis).as_str());
    text.append(":");
    text.append(records_json_text(records).as_str());
    bytes_of(text.as_str())
}

// ---------------------------------------------------------------------
// Authentication
// ---------------------------------------------------------------------

/// Whether a timestamp is within the window of `now`, on either side.
pub open spec fn fresh(timestamp_millis: u64, now_millis: u64) -> bool {
    &&& now_millis - timestamp_millis <= REQUEST_FRESHNESS_WINDOW_MILLIS
    &&& timestamp_millis - now_millis <= REQUEST_FRESHNESS_WINDOW_MILLIS
}

/// Whether a timestamp is within the window of `now`, on either side.
pub fn is_fresh(timestamp_millis: u64, now_millis: u64) -> (r: bool)
    ensures
        r == fresh(timestamp_millis, now_millis),
{
    if now_millis >= timestamp_millis {
        now_millis - timestamp_millis <= REQUEST_FRESHNESS_WINDOW_MILLIS
    } else {
        timestamp_millis - now_millis <= REQUEST_FRESHNESS_WINDOW_MILLIS
    }
}

/// The first thing that is wrong with a request, if any.
pub open spec fn verdict(
    is_fresh: bool,
    key_accepted: bool,
    signature_accepted: bool,
    verified: bool,
) -> Option<RequestAuthError> {
    if !is_fresh {
        Some(RequestAuthError::Stale)
    } else if !key_accepted {
        Some(RequestAuthError::MalformedKey)
    } else if !signature_accepted {
        Some(RequestAuthError::MalformedSignature)
    } else if !verified {
        Some(RequestAuthError::Signature(ClientAuthError::InvalidSignature))
    } else {
        None
    }
}

/// The first thing that is wrong with a request, if any.
pub fn auth_verdict(
    is_fresh: bool,
    key_accepted: bool,
    signature_accepted: bool,
    verified: bool,
) -> (r: Option<RequestAuthError>)
    ensures
        r == verdict(is_fresh, key_accepted, signature_accepted, verified),
{
    if !is_fresh {
        Some(RequestAuthError::Stale)
    } else if !key_accepted {
        Some(RequestAuthError::MalformedKey)
    } else if !signature_accepted {
        Some(RequestAuthError::MalformedSignature)
    } else if !verified {
        Some(RequestAuthError::Signature(ClientAuthError::InvalidSignature))
    } else {
        None
    }
}

impl<T> SignedEnvelope<T> {
    /// Why the envelope is refused for a message that it should have signed,
    /// if it is.
    pub open spec fn refusal(self, message: Seq<u8>, now_millis: u64) -> Option<RequestAuthError> {
        verdict(
            fresh(self.timestamp_millis, now_millis),
            self.verifying_key@.len() == 32 && is_public_key(self.verifying_key@),
            self.signature@.len() == 64,
            signature_holds(self.verifying_key@, message, self.signature@),
        )
    }

    /// Whether the outcome of an authentication is right: the identity of
    /// the envelope where nothing is wrong with it, else what is.
    pub open spec fn judged(
        self,
        message: Seq<u8>,
        now_millis: u64,
        r: Result<ClientIdentity, RequestAuthError>,
    ) -> bool {
        match r {
            Ok(identity) => self.refusal(message, now_millis) is None && identity.verifying_key@
                == self.verifying_key@ && identity.rdns@ == self.rdns@,
            Err(e) => self.refusal(message, now_millis) == Some(e),
        }
    }
}

fn key_array(bytes: &Vec<u8>) -> (r: Option<[u8; 32]>)
    ensures
        match r {
            Some(key) => key@ == bytes@,
            None => bytes@.len() != 32,
        },
{
    if bytes.len() != 32 {
        return None;
    }
    let mut key: [u8; 32] = [0u8; 32];
    let mut i: usize = 0;
    while i < 32
        invariant
            i <= 32,
            bytes@.len() == 32,
            forall|j: int| 0 <= j < i ==> key@[j] == bytes@[j],
        decreases 32 - i,
    {
        key[i] = bytes[i];
        i = i + 1;
    }
    assert(key@ =~= bytes@);
    Some(key)
}

fn signature_array(bytes: &Vec<u8>) -> (r: [u8; 64])
    requires
        bytes@.len() == 64,
    ensures
        r@ == bytes@,
{
    let mut signature: [u8; 64] = [0u8; 64];
    let mut i: usize = 0;
    while i < 64
        invariant
            i <= 64,
            bytes@.len() == 64,
            forall|j: int| 0 <= j < i ==> signature@[j] == bytes@[j],
        decreases 64 - i,
    {
        signature[i] = bytes[i];
        i = i + 1;
    }
    assert(signature@ =~= bytes@);
    signature
}

/// Authenticates an envelope for the message that it should have signed, and
/// returns the sender's identity.
pub fn authenticate<T>(envelope: &SignedEnvelope<T>, message: &[u8], now_millis: u64) -> (r: Result<
    ClientIdentity,
    RequestAuthError,
>)
    ensures
        envelope.judged(message@, now_millis, r),
{
    if !is_fresh(envelope.timestamp_millis, now_millis) {
        return Err(RequestAuthError::Stale);
    }
    let key: [u8; 32] = match key_array(&envelope.verifying_key) {
        Some(key) => key,
        None => {
            return Err(RequestAuthError::MalformedKey);
        },
    };
    let key_accepted: bool = accepts_key(&key);
    let signature_accepted: bool = accepts_signature(envelope.signature.as_slice());
    let identity = ClientIdentity::new(key, envelope.rdns.as_str());
    let verified: bool = key_accepted && signature_accepted && identity.verify(
        message,
        &signature_array(&envelope.signature),
    ).is_ok();
    match auth_verdict(true, key_accepted, signature_accepted, verified) {
        Some(e) => Err(e),
        None => Ok(identity),
    }
}

// ---------------------------------------------------------------------
// Laws
// ---------------------------------------------------------------------

/// Different texts have different bytes.
proof fn lemma_bytes_injective(a: Seq<char>, b: Seq<char>)
    requires
        encode_utf8(a) == encode_utf8(b),
    ensures
        a == b,
{
    vstd::utf8::encode_utf8_decode_utf8(a);
    vstd::utf8::encode_utf8_decode_utf8(b);
}

/// A probe's signature is good for one timestamp only.
pub proof fn law_probe_message_injective(a: u64, b: u64)
    requires
        encode_utf8(probe_text(a)) == encode_utf8(probe_text(b)),
    ensures
        a == b,
{
    lemma_bytes_injective(probe_text(a), probe_text(b));
    let n = "binda-probe:"@.len() as int;
    assert(decimal(a as nat) =~= probe_text(a).skip(n));
    assert(decimal(b as nat) =~= probe_text(b).skip(n));
    law_decimal_injective(a as nat, b as nat);
}

/// A text that ends in a colon and digits is cut in one way only.
proof fn lemma_last_colon(x: Seq<char>, n: nat, y: Seq<char>, m: nat)
    requires
        x + ":"@ + decimal(n) == y + ":"@ + decimal(m),
    ensures
        x == y,
        n == m,
{
    reveal_strlit(":");
    let a = x + ":"@ + decimal(n);
    let b = y + ":"@ + decimal(m);
    lemma_decimal_digits(n);
    lemma_decimal_digits(m);
    assert(":"@ =~= seq![':']);
    assert(a.len() == x.len() + 1 + decimal(n).len());
    assert(b.len() == y.len() + 1 + decimal(m).len());
    assert(a[x.len() as int] == ':');
    assert(b[y.len() as int] == ':');
    if x.len() < y.len() {
        assert(a[y.len() as int] == decimal(n)[y.len() - x.len() - 1]);
    } else if y.len() < x.len() {
        assert(b[x.len() as int] == decimal(m)[x.len() - y.len() - 1]);
    }
    assert(x =~= a.take(x.len() as int));
    assert(y =~= b.take(x.len() as int));
    assert(decimal(n) =~= a.skip(x.len() as int + 1));
    assert(decimal(m) =~= b.skip(x.len() as int + 1));
    law_decimal_injective(n, m);
}

/// A registration's signature is good for one domain and one timestamp
/// only, whatever characters the domain has.
pub proof fn law_register_message_injective(d: Seq<char>, a: u64, e: Seq<char>, b: u64)
    requires
        encode_utf8(register_text(d, a)) == encode_utf8(register_text(e, b)),
    ensures
        d == e,
        a == b,
{
    lemma_bytes_injective(register_text(d, a), register_text(e, b));
    let front = "binda-register:"@;
    lemma_last_colon(front + d, a as nat, front + e, b as nat);
    assert(d =~= (front + d).skip(front.len() as int));
    assert(e =~= (front + e).skip(front.len() as int));
}

/// A signature over one kind of request is worth nothing for another kind.
pub proof fn law_message_kinds_differ(
    a: u64,
    d: Seq<char>,
    b: u64,
    e: Seq<char>,
    records: Seq<Record>,
    c: u64,
)
    ensures
        encode_utf8(probe_text(a)) != encode_utf8(register_text(d, b)),
        encode_utf8(probe_text(a)) != encode_utf8(set_records_text(e, records, c)),
        encode_utf8(register_text(d, b)) != encode_utf8(set_records_text(e, records, c)),
{
    reveal_strlit("binda-probe:");
    reveal_strlit("binda-register:");
    reveal_strlit("binda-set-records:");
    assert(probe_text(a)[6] == 'p');
    assert(register_text(d, b)[6] == 'r');
    assert(set_records_text(e, records, c)[6] == 's');
    if encode_utf8(probe_text(a)) == encode_utf8(register_text(d, b)) {
        lemma_bytes_injective(probe_text(a), register_text(d, b));
    }
    if encode_utf8(probe_text(a)) == encode_utf8(set_records_text(e, records, c)) {
        lemma_bytes_injective(probe_text(a), set_records_text(e, records, c));
    }
    if encode_utf8(register_text(d, b)) == encode_utf8(set_records_text(e, records, c)) {
        lemma_bytes_injective(register_text(d, b), set_records_text(e, records, c));
    }
}

/// A request that was captured is refused once the window has passed, and
/// before it has begun.
pub proof fn law_replay_refused<T>(envelope: SignedEnvelope<T>, message: Seq<u8>, now_millis: u64)
    requires
        now_millis > envelope.timestamp_millis + REQUEST_FRESHNESS_WINDOW_MILLIS || now_millis
            + REQUEST_FRESHNESS_WINDOW_MILLIS < envelope.timestamp_millis,
    ensures
        envelope.refusal(message, now_millis) == Some(RequestAuthError::Stale),
{
}

/// A publication's signature is good for one domain, one list of records and
/// one timestamp only, whatever characters they have.
pub proof fn law_set_records_message_injective(
    d: Seq<char>,
    r: Seq<Record>,
    a: u64,
    e: Seq<char>,
    q: Seq<Record>,
    b: u64,
)
    requires
        encode_utf8(set_records_text(d, r, a)) == encode_utf8(set_records_text(e, q, b)),
    ensures
        d == e,
        same_records(r, q),
        a == b,
{
    reveal_strlit(":");
    let s = set_records_text(d, r, a);
    let t = set_records_text(e, q, b);
    lemma_bytes_injective(s, t);
    let front = "binda-set-records:"@;
    let x = front + d + ":"@ + decimal(a as nat);
    let y = front + e + ":"@ + decimal(b as nat);
    assert(s =~= x + (":"@ + records_json(r)));
    assert(t =~= y + (":"@ + records_json(q)));
    let m = x.len() as int;
    let n = y.len() as int;
    if m < n {
        let k = n - m;
        assert(records_json(q) =~= t.skip(n + 1));
        assert(records_json(r) =~= s.skip(m + 1));
        assert(records_json(q).len() >= 2) by {
            reveal_strlit("[");
            reveal_strlit("]");
        }
        assert(records_json(r).skip(k) =~= records_json(q));
        lemma_json_opens_once(r, q, k);
    } else if n < m {
        let k = m - n;
        assert(records_json(q) =~= t.skip(n + 1));
        assert(records_json(r) =~= s.skip(m + 1));
        assert(records_json(r).len() >= 2) by {
            reveal_strlit("[");
            reveal_strlit("]");
        }
        assert(records_json(q).skip(k) =~= records_json(r));
        lemma_json_opens_once(q, r, k);
    }
    lemma_cut(x, ":"@ + records_json(r), y, ":"@ + records_json(q));
    lemma_last_colon(front + d, a as nat, front + e, b as nat);
    assert(d =~= (front + d).skip(front.len() as int));
    assert(e =~= (front + e).skip(front.len() as int));
    lemma_cut(":"@, records_json(r), ":"@, records_json(q));
    assert(records_json(r) =~= "["@ + (records_list(r) + "]"@));
    assert(records_json(q) =~= "["@ + (records_list(q) + "]"@));
    lemma_cut("["@, records_list(r) + "]"@, "["@, records_list(q) + "]"@);
    assert(records_list(r).len() == records_list(q).len());
    lemma_cut(records_list(r), "]"@, records_list(q), "]"@);
    lemma_list_injective(r, q);
}

/// A timestamp is fresh up to ten seconds before the node's clock and up to
/// ten seconds behind it.
pub proof fn law_fresh_within_ten_seconds(timestamp_millis: u64, now_millis: u64)
    ensures
        fresh(timestamp_millis, now_millis) <==> timestamp_millis <= now_millis + 10_000
            && now_millis <= timestamp_millis + 10_000,
{
}

/// An envelope is accepted exactly where its timestamp is fresh, its key and
/// its signature are such, and the key verifies the signature over the very
/// message. What is refused is refused for the first of these that fails.
pub proof fn law_accepted_exactly<T>(
    envelope: SignedEnvelope<T>,
    message: Seq<u8>,
    now_millis: u64,
)
    ensures
        ({
            let key = envelope.verifying_key@;
            let in_time = envelope.timestamp_millis <= now_millis + 10_000 && now_millis
                <= envelope.timestamp_millis + 10_000;
            let keyed = key.len() == 32 && is_public_key(key);
            let sized = envelope.signature@.len() == 64;
            let signed = signature_holds(key, message, envelope.signature@);
            let refusal = envelope.refusal(message, now_millis);
            &&& refusal is None <==> in_time && keyed && sized && signed
            &&& refusal == Some(RequestAuthError::Stale) <==> !in_time
            &&& refusal == Some(RequestAuthError::MalformedKey) <==> in_time && !keyed
            &&& refusal == Some(RequestAuthError::MalformedSignature) <==> in_time && keyed
                && !sized
            &&& refusal == Some(RequestAuthError::Signature(ClientAuthError::InvalidSignature))
                <==> in_time && keyed && sized && !signed
        }),
{
}

/// The identity that comes of an authentication is the envelope's own, key and
/// host name, and there is one only where the envelope is accepted; else the
/// error is the reason of the refusal.
pub proof fn law_identity_is_senders<T>(
    envelope: SignedEnvelope<T>,
    message: Seq<u8>,
    now_millis: u64,
    r: Result<ClientIdentity, RequestAuthError>,
)
    requires
        envelope.judged(message, now_millis, r),
    ensures
        r is Ok <==> envelope.refusal(message, now_millis) is None,
        r matches Ok(identity) ==> identity.verifying_key@ == envelope.verifying_key@
            && identity.rdns@ == envelope.rdns@ && signature_holds(
            identity.verifying_key@,
            message,
            envelope.signature@,
        ),
        r matches Err(e) ==> envelope.refusal(message, now_millis) == Some(e),
{
}

/// The verdict names the first thing that is wrong, and nothing where nothing
/// is.
pub proof fn law_verdict_names_first(
    is_fresh: bool,
    key_accepted: bool,
    signature_accepted: bool,
    verified: bool,
)
    ensures
        ({
            let v = verdict(is_fresh, key_accepted, signature_accepted, verified);
            &&& v is None <==> is_fresh && key_accepted && signature_accepted && verified
            &&& v == Some(RequestAuthError::Stale) <==> !is_fresh
            &&& v == Some(RequestAuthError::MalformedKey) <==> is_fresh && !key_accepted
            &&& v == Some(RequestAuthError::MalformedSignature) <==> is_fresh && key_accepted
                && !signature_accepted
        }),
{
}

/// What is signed can be read off the signed text: the kind of the request in
/// front, then the domain, the timestamp and the records as far as the kind
/// has them.
pub proof fn law_signed_text_parts(domain: Seq<char>, records: Seq<Record>, timestamp_millis: u64)
    ensures
        ({
            let time = decimal(timestamp_millis as nat);
            let probe = probe_text(timestamp_millis);
            let register = register_text(domain, timestamp_millis);
            let publish = set_records_text(domain, records, timestamp_millis);
            let n = domain.len() as int;
            &&& probe.take(12) == "binda-probe:"@
            &&& probe.skip(12) == time
            &&& register.take(15) == "binda-register:"@
            &&& register.subrange(15, 15 + n) == domain
            &&& register[15 + n] == ':'
            &&& register.skip(16 + n) == time
            &&& publish.take(18) == "binda-set-records:"@
            &&& publish.subrange(18, 18 + n) == domain
            &&& publish[18 + n] == ':'
            &&& publish.subrange(19 + n, 19 + n + time.len()) == time
            &&& publish[19 + n + time.len()] == ':'
            &&& publish.skip(20 + n + time.len() as int) == records_json(records)
        }),
{
    reveal_strlit("binda-probe:");
    reveal_strlit("binda-register:");
    reveal_strlit("binda-set-records:");
    reveal_strlit(":");
    let time = decimal(timestamp_millis as nat);
    let probe = probe_text(timestamp_millis);
    let register = register_text(domain, timestamp_millis);
    let publish = set_records_text(domain, records, timestamp_millis);
    let n = domain.len() as int;
    assert(probe.take(12) =~= "binda-probe:"@);
    assert(probe.skip(12) =~= time);
    assert(register.take(15) =~= "binda-register:"@);
    assert(register.subrange(15, 15 + n) =~= domain);
    assert(register.skip(16 + n) =~= time);
    assert(publish.take(18) =~= "binda-set-records:"@);
    assert(publish.subrange(18, 18 + n) =~= domain);
    assert(publish.subrange(19 + n, 19 + n + time.len()) =~= time);
    assert(publish.skip(20 + n + time.len() as int) =~= records_json(records));
}

} // verus!
