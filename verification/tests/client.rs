use binda::client::{ClientAuthError, ClientIdentity};
use binda::client_api::{
    auth_verdict, authenticate, is_fresh, probe_message, register_message,
    set_records_message, ClientRequest, ClientResponse, ProbeBody, RegisterBody, RequestAuthError,
    SetRecordsBody, SignedEnvelope, REQUEST_FRESHNESS_WINDOW_MILLIS,
};
use binda::api::{
    answer_probe, answer_register, answer_set_records, handle_client_request,
    handle_client_request_at,
};
use binda::domain::DomainName;
use binda::json::record_type_text;
use binda::liveness::{MockTimeSource, LIVENESS_WINDOW_MILLIS};
use binda::store::RegistryStore;
use binda::token::RegistrationToken;
use binda::zone::{Record, RecordType};
use ed25519_dalek::{Signer, SigningKey};
use rand::rngs::OsRng;

fn identity(signing_key: &SigningKey, rdns: &str) -> ClientIdentity {
    ClientIdentity::new(signing_key.verifying_key().to_bytes(), rdns)
}

fn envelope<T>(signing_key: &SigningKey, message: &[u8], timestamp: u64, body: T) -> SignedEnvelope<T> {
    SignedEnvelope {
        verifying_key: signing_key.verifying_key().to_bytes().to_vec(),
        rdns: "host.example.net".into(),
        timestamp_millis: timestamp,
        signature: signing_key.sign(message).to_bytes().to_vec(),
        body,
    }
}

fn probe(signing_key: &SigningKey, timestamp: u64) -> ClientRequest {
    ClientRequest::Probe(envelope(signing_key, &probe_message(timestamp), timestamp, ProbeBody))
}

fn envelope_register(signing_key: &SigningKey, domain: DomainName, timestamp: u64) -> ClientRequest {
    let message = register_message(&domain, timestamp);
    ClientRequest::Register(envelope(signing_key, &message, timestamp, RegisterBody { domain }))
}

fn envelope_set_records(
    signing_key: &SigningKey,
    domain: DomainName,
    records: Vec<Record>,
    timestamp: u64,
) -> ClientRequest {
    let message = set_records_message(&domain, &records, timestamp);
    ClientRequest::SetRecords(envelope(
        signing_key,
        &message,
        timestamp,
        SetRecordsBody { domain, records },
    ))
}

fn a_record() -> Record {
    Record {
        name: "@".into(),
        record_type: RecordType::A,
        ttl_secs: 300,
        value: "203.0.113.1".into(),
    }
}

// Identities

#[test]
fn verifies_valid_signature() {
    let signing_key = SigningKey::generate(&mut OsRng);
    let identity = identity(&signing_key, "host.example.net");
    let msg = b"register: example.binda";
    let sig = signing_key.sign(msg);
    assert!(identity.verify(msg, &sig.to_bytes()).is_ok());
}

#[test]
fn rejects_tampered_message() {
    let signing_key = SigningKey::generate(&mut OsRng);
    let identity = identity(&signing_key, "host.example.net");
    let sig = signing_key.sign(b"register: example.binda");
    assert_eq!(
        identity.verify(b"register: evil.binda", &sig.to_bytes()),
        Err(ClientAuthError::InvalidSignature)
    );
}

#[test]
fn quota_key_is_host_scoped_and_canonical() {
    let signing_key = SigningKey::generate(&mut OsRng);
    let a = identity(&signing_key, "Host.Example.Net.");
    let b = identity(&SigningKey::generate(&mut OsRng), "host.example.net");
    assert_eq!(a.quota_key(), b.quota_key());
    assert_ne!(a.key(), b.key());
}

#[test]
fn key_is_hex_and_host() {
    let mut bytes = [0u8; 32];
    bytes[0] = 0xAB;
    bytes[31] = 0x01;
    let identity = ClientIdentity::new(bytes, "H.net");
    assert_eq!(identity.key(), format!("ab{}01@H.net", "00".repeat(30)));
}

#[test]
fn quota_key_drops_white_space_and_dots() {
    let bytes = [0u8; 32];
    assert_eq!(ClientIdentity::new(bytes, " \t Host.NET.. \u{2003}").quota_key(), "host.net");
    assert_eq!(ClientIdentity::new(bytes, "host.net").quota_key(), "host.net");
    assert_eq!(ClientIdentity::new(bytes, "ÄÖ.net").quota_key(), "ÄÖ.net");
    assert_eq!(ClientIdentity::new(bytes, "").quota_key(), "");
}

#[test]
fn bytes_that_are_no_key_verify_nothing() {
    let signing_key = SigningKey::generate(&mut OsRng);
    let sig = signing_key.sign(b"m").to_bytes();
    let refused = (0..=255u8)
        .map(|b| ClientIdentity::new([b; 32], "h"))
        .all(|identity| identity.verify(b"m", &sig) == Err(ClientAuthError::InvalidSignature));
    assert!(refused);
}

#[test]
fn client_auth_error_message() {
    assert_eq!(
        ClientAuthError::InvalidSignature.to_string(),
        "signature does not verify against the supplied public key"
    );
}

// Messages

#[test]
fn canonical_messages() {
    let domain = DomainName::new("🔥.binda").unwrap();
    assert_eq!(probe_message(0), b"binda-probe:0");
    assert_eq!(probe_message(u64::MAX), b"binda-probe:18446744073709551615");
    assert_eq!(
        register_message(&domain, 1_000),
        "binda-register:🔥.binda:1000".as_bytes()
    );
    assert_eq!(
        set_records_message(&domain, &[], 7),
        "binda-set-records:🔥.binda:7:[]".as_bytes()
    );
    assert_eq!(
        String::from_utf8(set_records_message(&domain, &[a_record(), a_record()], 7)).unwrap(),
        "binda-set-records:🔥.binda:7:[{\"name\":\"@\",\"type\":\"A\",\"ttl_secs\":300,\
         \"value\":\"203.0.113.1\"},{\"name\":\"@\",\"type\":\"A\",\"ttl_secs\":300,\
         \"value\":\"203.0.113.1\"}]"
    );
}

#[test]
fn texts_in_messages_are_escaped() {
    let domain = DomainName::new("d").unwrap();
    let record = Record {
        name: "q\"b\\s/\u{8}\t\n\u{c}\r\u{1f}\u{0}\u{7f}é🔥".into(),
        record_type: RecordType::Txt,
        ttl_secs: 0,
        value: "".into(),
    };
    assert_eq!(
        String::from_utf8(set_records_message(&domain, &[record], 1)).unwrap(),
        "binda-set-records:d:1:[{\"name\":\"q\\\"b\\\\s/\\b\\t\\n\\f\\r\\u001f\\u0000\u{7f}é🔥\",\
         \"type\":\"TXT\",\"ttl_secs\":0,\"value\":\"\"}]"
    );
}

#[test]
fn names_of_record_types() {
    assert_eq!(record_type_text(RecordType::A), "A");
    assert_eq!(record_type_text(RecordType::Aaaa), "AAAA");
    assert_eq!(record_type_text(RecordType::Cname), "CNAME");
    assert_eq!(record_type_text(RecordType::Mx), "MX");
    assert_eq!(record_type_text(RecordType::Txt), "TXT");
    assert_eq!(record_type_text(RecordType::Ns), "NS");
}

#[test]
fn messages_of_different_requests_differ() {
    let plain = DomainName::new("a").unwrap();
    let tricky = DomainName::new("a:1").unwrap();
    assert_ne!(register_message(&plain, 1), register_message(&tricky, 1));
    assert_ne!(register_message(&plain, 12), register_message(&tricky, 2));
    assert_ne!(probe_message(1), probe_message(11));
}

#[test]
fn messages_of_different_publications_differ() {
    let record = |name: &str, value: &str| Record {
        name: name.into(),
        record_type: RecordType::Txt,
        ttl_secs: 1,
        value: value.into(),
    };
    let domains = ["a", "a:1", "a:1:[]", "a:1:[{\"name\":\"b"];
    let lists = [
        vec![],
        vec![record("b", "")],
        vec![record("", "b")],
        vec![record("b", ""), record("b", "")],
        vec![record("b\",\"type\":\"A", "")],
        vec![record("b:1:[]", ":1:[]")],
    ];
    let mut messages = Vec::new();
    for domain in domains {
        for records in &lists {
            for timestamp in [1, 11] {
                let domain = DomainName::new(domain).unwrap();
                messages.push(set_records_message(&domain, records, timestamp));
            }
        }
    }
    let count = messages.len();
    messages.sort();
    messages.dedup();
    assert_eq!(messages.len(), count);
}

// Authentication

#[test]
fn authenticates_valid_probe() {
    let signing_key = SigningKey::generate(&mut OsRng);
    let msg = probe_message(1000);
    let envelope = envelope(&signing_key, &msg, 1000, ProbeBody);
    assert!(authenticate(&envelope, &msg, 1000).is_ok());
}

#[test]
fn authentication_returns_the_identity() {
    let signing_key = SigningKey::generate(&mut OsRng);
    let msg = probe_message(1000);
    let envelope = envelope(&signing_key, &msg, 1000, ProbeBody);
    assert_eq!(
        authenticate(&envelope, &msg, 1000).unwrap(),
        identity(&signing_key, "host.example.net")
    );
}

#[test]
fn rejects_stale_timestamp() {
    let signing_key = SigningKey::generate(&mut OsRng);
    let msg = probe_message(1000);
    let envelope = envelope(&signing_key, &msg, 1000, ProbeBody);
    let far_future = 1000 + REQUEST_FRESHNESS_WINDOW_MILLIS + 1;
    assert_eq!(
        authenticate(&envelope, &msg, far_future),
        Err(RequestAuthError::Stale)
    );
}

#[test]
fn rejects_wrong_signature() {
    let signing_key = SigningKey::generate(&mut OsRng);
    let other_key = SigningKey::generate(&mut OsRng);
    let msg = probe_message(1000);
    let mut envelope = envelope(&signing_key, &msg, 1000, ProbeBody);
    envelope.signature = other_key.sign(&msg).to_bytes().to_vec();
    assert!(matches!(
        authenticate(&envelope, &msg, 1000),
        Err(RequestAuthError::Signature(_))
    ));
}

#[test]
fn rejects_malformed_key_and_signature() {
    let signing_key = SigningKey::generate(&mut OsRng);
    let msg = probe_message(1000);

    let mut short_key = envelope(&signing_key, &msg, 1000, ProbeBody);
    short_key.verifying_key.pop();
    assert_eq!(authenticate(&short_key, &msg, 1000), Err(RequestAuthError::MalformedKey));

    let mut refused = 0;
    for b in 0..=255u8 {
        let mut no_key = envelope(&signing_key, &msg, 1000, ProbeBody);
        no_key.verifying_key = vec![b; 32];
        if authenticate(&no_key, &msg, 1000) == Err(RequestAuthError::MalformedKey) {
            refused += 1;
        }
    }
    assert!(refused > 50);

    for len in [0, 63, 65] {
        let mut bad = envelope(&signing_key, &msg, 1000, ProbeBody);
        bad.signature = vec![0; len];
        assert_eq!(authenticate(&bad, &msg, 1000), Err(RequestAuthError::MalformedSignature));
    }
}

#[test]
fn freshness_window_is_closed_on_both_sides() {
    assert!(is_fresh(20_000, 30_000));
    assert!(is_fresh(30_000, 20_000));
    assert!(!is_fresh(20_000, 30_001));
    assert!(!is_fresh(30_001, 20_000));
    assert!(!is_fresh(0, u64::MAX));
    assert!(!is_fresh(u64::MAX, 0));
}

#[test]
fn first_fault_decides_the_verdict() {
    let invalid = RequestAuthError::Signature(ClientAuthError::InvalidSignature);
    assert_eq!(auth_verdict(false, false, false, false), Some(RequestAuthError::Stale));
    assert_eq!(auth_verdict(true, false, false, false), Some(RequestAuthError::MalformedKey));
    assert_eq!(auth_verdict(true, true, false, false), Some(RequestAuthError::MalformedSignature));
    assert_eq!(auth_verdict(true, true, true, false), Some(invalid));
    assert_eq!(auth_verdict(true, true, true, true), None);
}

#[test]
fn request_auth_error_messages() {
    assert_eq!(RequestAuthError::MalformedKey.to_string(), "malformed public key");
    assert_eq!(RequestAuthError::MalformedSignature.to_string(), "malformed signature");
    assert_eq!(
        RequestAuthError::Signature(ClientAuthError::InvalidSignature).to_string(),
        "signature does not verify against the supplied public key"
    );
    assert_eq!(
        RequestAuthError::Stale.to_string(),
        "request timestamp is outside the freshness window"
    );
}

// Requests

#[test]
fn probe_then_register_succeeds_end_to_end() {
    let time = MockTimeSource::new(1_000);
    let mut store = RegistryStore::new();
    let signing_key = SigningKey::generate(&mut OsRng);
    assert_eq!(
        handle_client_request(&mut store, &time, probe(&signing_key, 1_000), true),
        ClientResponse::ProbeAck
    );

    let domain = DomainName::new("example.binda").unwrap();
    let register_req = envelope_register(&signing_key, domain, 1_000);
    assert!(matches!(
        handle_client_request(&mut store, &time, register_req, true),
        ClientResponse::Registered { .. }
    ));
}

#[test]
fn register_without_prior_probe_is_refused() {
    let time = MockTimeSource::new(1_000);
    let mut store = RegistryStore::new();
    let signing_key = SigningKey::generate(&mut OsRng);
    let domain = DomainName::new("example.binda").unwrap();
    let register_req = envelope_register(&signing_key, domain, 1_000);
    assert!(matches!(
        handle_client_request(&mut store, &time, register_req, true),
        ClientResponse::Error { .. }
    ));
}

#[test]
fn register_with_bad_signature_is_refused() {
    let time = MockTimeSource::new(1_000);
    let mut store = RegistryStore::new();
    let signing_key = SigningKey::generate(&mut OsRng);
    handle_client_request(&mut store, &time, probe(&signing_key, 1_000), true);

    let domain = DomainName::new("example.binda").unwrap();
    let mut req = envelope_register(&signing_key, domain, 1_000);
    if let ClientRequest::Register(envelope) = &mut req {
        envelope.signature = vec![0u8; 64];
    }
    assert!(matches!(
        handle_client_request(&mut store, &time, req, true),
        ClientResponse::Error { .. }
    ));
}

#[test]
fn register_without_rdns_verification_is_refused_even_if_otherwise_valid() {
    let time = MockTimeSource::new(1_000);
    let mut store = RegistryStore::new();
    let signing_key = SigningKey::generate(&mut OsRng);
    handle_client_request(&mut store, &time, probe(&signing_key, 1_000), true);

    let domain = DomainName::new("example.binda").unwrap();
    let register_req = envelope_register(&signing_key, domain.clone(), 1_000);
    assert!(matches!(
        handle_client_request(&mut store, &time, register_req, false),
        ClientResponse::Error { .. }
    ));
    assert!(store.lookup(&domain).is_none());
}

#[test]
fn probe_with_bad_signature_is_refused() {
    let time = MockTimeSource::new(1_000);
    let mut store = RegistryStore::new();
    let signing_key = SigningKey::generate(&mut OsRng);
    let mut req = probe(&signing_key, 1_000);
    if let ClientRequest::Probe(envelope) = &mut req {
        envelope.signature = vec![0u8; 64];
    }
    assert!(matches!(
        handle_client_request(&mut store, &time, req, true),
        ClientResponse::Error { .. }
    ));
}

#[test]
fn registering_an_already_taken_domain_is_refused() {
    let time = MockTimeSource::new(1_000);
    let mut store = RegistryStore::new();
    let owner_key = SigningKey::generate(&mut OsRng);
    let other_key = SigningKey::generate(&mut OsRng);
    handle_client_request(&mut store, &time, probe(&owner_key, 1_000), true);
    handle_client_request(&mut store, &time, probe(&other_key, 1_000), true);

    let domain = DomainName::new("example.binda").unwrap();
    handle_client_request(
        &mut store,
        &time,
        envelope_register(&owner_key, domain.clone(), 1_000),
        true,
    );
    assert!(matches!(
        handle_client_request(
            &mut store,
            &time,
            envelope_register(&other_key, domain, 1_000),
            true,
        ),
        ClientResponse::Error { .. }
    ));
}

#[test]
fn set_records_succeeds_for_domain_owner() {
    let time = MockTimeSource::new(1_000);
    let mut store = RegistryStore::new();
    let signing_key = SigningKey::generate(&mut OsRng);
    handle_client_request(&mut store, &time, probe(&signing_key, 1_000), true);
    let domain = DomainName::new("example.binda").unwrap();
    handle_client_request(
        &mut store,
        &time,
        envelope_register(&signing_key, domain.clone(), 1_000),
        true,
    );

    let records = vec![Record {
        name: "@".into(),
        record_type: RecordType::A,
        ttl_secs: 300,
        value: "203.0.113.1".into(),
    }];
    let req = envelope_set_records(&signing_key, domain, records, 1_000);
    assert_eq!(
        handle_client_request(&mut store, &time, req, true),
        ClientResponse::RecordsSet
    );
}

#[test]
fn set_records_fails_for_non_owner() {
    let time = MockTimeSource::new(1_000);
    let mut store = RegistryStore::new();
    let owner_key = SigningKey::generate(&mut OsRng);
    let stranger_key = SigningKey::generate(&mut OsRng);
    handle_client_request(&mut store, &time, probe(&owner_key, 1_000), true);
    let domain = DomainName::new("example.binda").unwrap();
    handle_client_request(
        &mut store,
        &time,
        envelope_register(&owner_key, domain.clone(), 1_000),
        true,
    );

    let req = envelope_set_records(&stranger_key, domain, Vec::new(), 1_000);
    assert!(matches!(
        handle_client_request(&mut store, &time, req, true),
        ClientResponse::Error { .. }
    ));
}

#[test]
fn set_records_with_bad_signature_is_refused() {
    let time = MockTimeSource::new(1_000);
    let mut store = RegistryStore::new();
    let signing_key = SigningKey::generate(&mut OsRng);
    let domain = DomainName::new("example.binda").unwrap();
    let mut req = envelope_set_records(&signing_key, domain, Vec::new(), 1_000);
    if let ClientRequest::SetRecords(envelope) = &mut req {
        envelope.signature = vec![0u8; 64];
    }
    assert!(matches!(
        handle_client_request(&mut store, &time, req, true),
        ClientResponse::Error { .. }
    ));
}

#[test]
fn responses_say_what_is_wrong() {
    let mut store = RegistryStore::new();
    let signing_key = SigningKey::generate(&mut OsRng);
    let domain = DomainName::new("example.binda").unwrap();
    let error = |message: &str| ClientResponse::Error {
        message: message.to_string(),
    };

    let late = probe(&signing_key, 1_000);
    assert_eq!(
        handle_client_request_at(&mut store, late, true, 100_000, [0; 8]),
        error("request timestamp is outside the freshness window")
    );
    let early = envelope_register(&signing_key, domain.clone(), 1_000);
    assert_eq!(
        handle_client_request_at(&mut store, early, true, 1_000, [0; 8]),
        error("client is not currently live (must probe within the liveness window first)")
    );
    let unconfirmed = envelope_register(&signing_key, domain.clone(), 1_000);
    assert_eq!(
        handle_client_request_at(&mut store, unconfirmed, false, 1_000, [0; 8]),
        error("claimed rdns hostname does not forward-confirm against the request's source address")
    );
    let stranger = envelope_set_records(&signing_key, domain.clone(), Vec::new(), 1_000);
    assert_eq!(
        handle_client_request_at(&mut store, stranger, true, 1_000, [0; 8]),
        error("client does not own this domain")
    );
}

#[test]
fn token_carries_time_and_nonce() {
    let mut store = RegistryStore::new();
    let signing_key = SigningKey::generate(&mut OsRng);
    let domain = DomainName::new("example.binda").unwrap();
    handle_client_request_at(&mut store, probe(&signing_key, 1_000), true, 1_500, [0; 8]);
    let request = envelope_register(&signing_key, domain.clone(), 1_000);
    assert_eq!(
        handle_client_request_at(&mut store, request, true, 1_600, [9; 8]),
        ClientResponse::Registered {
            token: RegistrationToken {
                issued_at_millis: 1_600,
                nonce: [9; 8]
            }
        }
    );
    assert_eq!(
        store.lookup(&domain).unwrap().client_key,
        identity(&signing_key, "host.example.net").key()
    );
}

#[test]
fn answers_follow_the_authentication() {
    let mut store = RegistryStore::new();
    let owner = ClientIdentity::new([1; 32], "h.net");
    let domain = DomainName::new("d").unwrap();
    assert_eq!(
        answer_probe(&mut store, Err(RequestAuthError::MalformedKey), 5),
        ClientResponse::Error {
            message: "malformed public key".into()
        }
    );
    assert_eq!(answer_probe(&mut store, Ok(owner.clone()), 5), ClientResponse::ProbeAck);
    assert!(matches!(
        answer_register(&mut store, Ok(owner.clone()), domain.clone(), true, 5, [0; 8]),
        ClientResponse::Registered { .. }
    ));
    assert_eq!(
        answer_set_records(&mut store, Ok(owner), &domain, vec![a_record()]),
        ClientResponse::RecordsSet
    );
    assert_eq!(store.lookup(&domain).unwrap().records, vec![a_record()]);
}

#[test]
fn no_host_gets_more_than_five_domains_whatever_its_keys() {
    let mut store = RegistryStore::new();
    let mut given = 0;
    for i in 0..8u8 {
        let signing_key = SigningKey::generate(&mut OsRng);
        let domain = DomainName::new(&format!("d{i}")).unwrap();
        handle_client_request_at(&mut store, probe(&signing_key, 1_000), true, 1_000, [i; 8]);
        let request = envelope_register(&signing_key, domain, 1_000);
        if let ClientResponse::Registered { .. } =
            handle_client_request_at(&mut store, request, true, 1_000, [i; 8])
        {
            given += 1;
        }
    }
    assert_eq!(given, 5);
}

#[test]
fn domain_of_a_stale_owner_can_be_claimed() {
    let mut store = RegistryStore::new();
    let gone = ClientIdentity::new([1; 32], "gone.net");
    let next = ClientIdentity::new([2; 32], "next.net");
    let domain = DomainName::new("d").unwrap();
    answer_probe(&mut store, Ok(gone.clone()), 0);
    answer_register(&mut store, Ok(gone), domain.clone(), true, 0, [0; 8]);
    let later = LIVENESS_WINDOW_MILLIS + 1;
    answer_probe(&mut store, Ok(next.clone()), later);
    assert!(matches!(
        answer_register(&mut store, Ok(next.clone()), domain.clone(), true, later, [0; 8]),
        ClientResponse::Registered { .. }
    ));
    assert_eq!(store.lookup(&domain).unwrap().client_key, next.key());
}

#[test]
fn domain_is_kept_as_long_as_its_host_answers() {
    let mut store = RegistryStore::new();
    let owner = ClientIdentity::new([1; 32], "owner.net");
    let other = ClientIdentity::new([2; 32], "other.net");
    let domain = DomainName::new("d").unwrap();
    answer_probe(&mut store, Ok(owner.clone()), 0);
    answer_register(&mut store, Ok(owner.clone()), domain.clone(), true, 0, [0; 8]);
    for round in 1..20 {
        let now = round * LIVENESS_WINDOW_MILLIS;
        answer_probe(&mut store, Ok(other.clone()), now);
        answer_register(&mut store, Ok(other.clone()), domain.clone(), true, now, [1; 8]);
        answer_set_records(&mut store, Ok(other.clone()), &domain, vec![a_record()]);
        answer_probe(&mut store, Ok(owner.clone()), now);
        let registration = store.lookup(&domain).unwrap();
        assert_eq!(registration.client_key, owner.key());
        assert!(registration.records.is_empty());
    }
}
