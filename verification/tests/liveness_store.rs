use binda::client::ClientIdentity;
use binda::domain::DomainName;
use binda::liveness::{
    LivenessTracker, MockTimeSource, SystemTimeSource, TimeSource, LIVENESS_WINDOW_MILLIS,
    MAX_REGISTRATIONS_PER_CLIENT,
};
use binda::store::{Registration, RegistrationError, RegistryStore};
use binda::token::RegistrationToken;
use binda::zone::{Record, RecordType};
use ed25519_dalek::SigningKey;
use rand::rngs::OsRng;

fn client() -> ClientIdentity {
    let signing_key = SigningKey::generate(&mut OsRng);
    ClientIdentity::new(signing_key.verifying_key().to_bytes(), "host.example.net")
}

fn on_host(key: u8, rdns: &str) -> ClientIdentity {
    ClientIdentity::new([key; 32], rdns)
}

fn domain(name: &str) -> DomainName {
    DomainName::new(name).unwrap()
}

fn token(issued_at_millis: u64, nonce: u8) -> RegistrationToken {
    RegistrationToken {
        issued_at_millis,
        nonce: [nonce; 8],
    }
}

fn record(value: &str) -> Record {
    Record {
        name: "@".into(),
        record_type: RecordType::Txt,
        ttl_secs: 1,
        value: value.into(),
    }
}

// Liveness

#[test]
fn client_is_live_immediately_after_probe() {
    let time = MockTimeSource::new(0);
    let mut tracker = LivenessTracker::new();
    let c = client();
    tracker.record_probe(&c, &time);
    assert!(tracker.is_live(&c, &time));
}

#[test]
fn client_goes_stale_after_window() {
    let mut time = MockTimeSource::new(0);
    let mut tracker = LivenessTracker::new();
    let c = client();
    tracker.record_probe(&c, &time);
    time.advance(LIVENESS_WINDOW_MILLIS + 1);
    assert!(!tracker.is_live(&c, &time));
}

#[test]
fn window_is_a_minute_and_closed() {
    assert_eq!(LIVENESS_WINDOW_MILLIS, 60_000);
    let mut tracker = LivenessTracker::new();
    let c = client();
    tracker.record_probe_at(&c, 1_000);
    assert!(tracker.is_live_at(&c, 61_000));
    assert!(!tracker.is_live_at(&c, 61_001));
    assert!(tracker.is_live_at(&c, 0));
}

#[test]
fn registration_cap_enforced() {
    let time = MockTimeSource::new(0);
    let mut tracker = LivenessTracker::new();
    let c = client();
    tracker.record_probe(&c, &time);
    for _ in 0..MAX_REGISTRATIONS_PER_CLIENT {
        assert!(tracker.can_register(&c, &time));
        tracker.increment_registration(&c);
    }
    assert!(!tracker.can_register(&c, &time));
}

#[test]
fn never_probed_client_is_not_live() {
    let time = MockTimeSource::new(0);
    let tracker = LivenessTracker::new();
    let c = client();
    assert!(!tracker.is_live(&c, &time));
    assert!(!tracker.can_register(&c, &time));
}

#[test]
fn registration_count_starts_at_zero() {
    let tracker = LivenessTracker::new();
    assert_eq!(tracker.registration_count(&client()), 0);
}

#[test]
fn clear_registrations_resets_count() {
    let time = MockTimeSource::new(0);
    let mut tracker = LivenessTracker::new();
    let c = client();
    tracker.record_probe(&c, &time);
    tracker.increment_registration(&c);
    assert_eq!(tracker.registration_count(&c), 1);
    tracker.clear_registrations(&c);
    assert_eq!(tracker.registration_count(&c), 0);
}

#[test]
fn forget_client_by_key_clears_both_count_and_liveness() {
    let time = MockTimeSource::new(0);
    let mut tracker = LivenessTracker::new();
    let c = client();
    tracker.record_probe(&c, &time);
    tracker.increment_registration(&c);

    tracker.forget_client_by_key(&c.quota_key());

    assert_eq!(tracker.registration_count(&c), 0);
    assert!(!tracker.is_live(&c, &time));
}

#[test]
fn expired_clients_lists_only_stale_ones() {
    let mut time = MockTimeSource::new(0);
    let mut tracker = LivenessTracker::new();
    let stale = client();
    let fresh_key = SigningKey::generate(&mut OsRng);
    let fresh = ClientIdentity::new(fresh_key.verifying_key().to_bytes(), "fresh.example.net");
    tracker.record_probe(&stale, &time);
    time.advance(LIVENESS_WINDOW_MILLIS + 1);
    tracker.record_probe(&fresh, &time);

    let expired = tracker.expired_clients(&time);
    assert_eq!(expired, vec![stale.quota_key()]);
}

#[test]
fn system_time_source_reports_plausible_unix_time() {
    let source = SystemTimeSource;
    assert!(source.now_millis() > 1_700_000_000_000);
}

#[test]
fn mock_clock_wraps_around() {
    let mut time = MockTimeSource::new(u64::MAX);
    time.advance(3);
    assert_eq!(time.now_millis(), 2);
    assert_eq!(MockTimeSource::default().now_millis(), 0);
}

// Store

#[test]
fn live_client_can_register_free_domain() {
    let time = MockTimeSource::new(0);
    let mut store = RegistryStore::new();
    let c = client();
    store.probe(&c, &time);
    let domain = DomainName::new("example.binda").unwrap();
    assert!(store.register(domain, &c, &time).is_ok());
}

#[test]
fn stale_client_cannot_register() {
    let time = MockTimeSource::new(0);
    let mut store = RegistryStore::new();
    let c = client();
    let domain = DomainName::new("example.binda").unwrap();
    assert_eq!(
        store.register(domain, &c, &time),
        Err(RegistrationError::NotLive)
    );
}

#[test]
fn stale_owner_loses_domain_on_reclaim() {
    let mut time = MockTimeSource::new(0);
    let mut store = RegistryStore::new();
    let c = client();
    store.probe(&c, &time);
    let domain = DomainName::new("example.binda").unwrap();
    store.register(domain.clone(), &c, &time).unwrap();

    time.advance(LIVENESS_WINDOW_MILLIS + 1);
    store.reclaim_stale(&time);
    assert!(store.lookup(&domain).is_none());
}

#[test]
fn live_owner_keeps_domain_on_reclaim() {
    let mut store = RegistryStore::new();
    let gone = on_host(1, "gone.net");
    let here = on_host(2, "here.net");
    store.probe_at(&gone, 0);
    store.probe_at(&here, 1);
    store.register_at(domain("a"), &gone, 1, [0; 8]).unwrap();
    store.register_at(domain("b"), &here, 1, [0; 8]).unwrap();
    store.reclaim_stale_at(LIVENESS_WINDOW_MILLIS + 1);
    assert!(store.lookup(&domain("a")).is_none());
    assert_eq!(store.lookup(&domain("b")).unwrap().client_key, here.key());
}

#[test]
fn keys_of_one_host_share_its_limit() {
    let mut store = RegistryStore::new();
    store.probe_at(&on_host(0, "Host.Net."), 0);
    for i in 0..5u8 {
        let c = on_host(i, "host.net");
        assert!(store.register_at(domain(&format!("d{i}")), &c, 0, [i; 8]).is_ok());
    }
    assert_eq!(
        store.register_at(domain("d5"), &on_host(9, " HOST.NET "), 0, [0; 8]),
        Err(RegistrationError::RegistrationLimitReached)
    );
    assert_eq!(store.all_rumors().len(), 5);
}

#[test]
fn taken_domain_is_refused_and_stays() {
    let mut store = RegistryStore::new();
    let owner = on_host(1, "a.net");
    let other = on_host(2, "b.net");
    store.probe_at(&owner, 0);
    store.probe_at(&other, 0);
    let issued = store.register_at(domain("d"), &owner, 0, [3; 8]).unwrap();
    assert_eq!(issued, token(0, 3));
    assert_eq!(
        store.register_at(domain("d"), &other, 0, [4; 8]),
        Err(RegistrationError::RegistrationLimitReached)
    );
    assert_eq!(
        store.lookup(&domain("d")),
        Some(&Registration {
            client_key: owner.key(),
            token: token(0, 3),
            records: Vec::new()
        })
    );
}

#[test]
fn host_that_comes_back_starts_afresh() {
    let mut store = RegistryStore::new();
    let c = on_host(1, "host.net");
    store.probe_at(&c, 0);
    for i in 0..5u8 {
        store.register_at(domain(&format!("d{i}")), &c, 0, [i; 8]).unwrap();
    }
    let later = LIVENESS_WINDOW_MILLIS + 1;
    store.reclaim_stale_at(later);
    store.probe_at(&c, later);
    for i in 0..5u8 {
        assert!(store.register_at(domain(&format!("e{i}")), &c, later, [i; 8]).is_ok());
    }
    assert_eq!(
        store.register_at(domain("e5"), &c, later, [0; 8]),
        Err(RegistrationError::RegistrationLimitReached)
    );
}

#[test]
fn records_belong_to_the_owner() {
    let mut store = RegistryStore::new();
    let owner = on_host(1, "a.net");
    let other = on_host(2, "a.net");
    store.probe_at(&owner, 0);
    store.register_at(domain("d"), &owner, 0, [0; 8]).unwrap();
    assert!(store.set_records(&domain("d"), &owner, vec![record("x")]));
    assert!(!store.set_records(&domain("d"), &other, vec![record("y")]));
    assert!(!store.set_records(&domain("e"), &owner, vec![record("y")]));
    assert_eq!(store.lookup(&domain("d")).unwrap().records, vec![record("x")]);
}

#[test]
fn rumors_converge_in_either_order() {
    let a = ("alice@a.net".to_string(), token(5, 3));
    let b = ("bob@b.net".to_string(), token(9, 8));
    let mut one = RegistryStore::new();
    one.adopt_rumor(domain("d"), a.0.clone(), a.1);
    one.adopt_rumor(domain("d"), b.0.clone(), b.1);
    let mut two = RegistryStore::new();
    two.adopt_rumor(domain("d"), b.0.clone(), b.1);
    two.adopt_rumor(domain("d"), a.0.clone(), a.1);
    assert_eq!(one.lookup(&domain("d")), two.lookup(&domain("d")));
    assert_eq!(one.lookup(&domain("d")).unwrap().token, token(9, 8));
}

#[test]
fn known_rumor_keeps_records() {
    let mut store = RegistryStore::new();
    let owner = on_host(1, "a.net");
    store.adopt_rumor(domain("d"), owner.key(), token(1, 1));
    assert!(store.set_records(&domain("d"), &owner, vec![record("x")]));
    store.adopt_rumor(domain("d"), owner.key(), token(1, 1));
    assert_eq!(store.lookup(&domain("d")).unwrap().records, vec![record("x")]);
}

#[test]
fn collision_installs_the_winner() {
    let mut store = RegistryStore::new();
    store.resolve_collision(
        domain("d"),
        ("a".into(), token(4, 0)),
        ("b".into(), token(2, 0)),
    );
    assert_eq!(store.lookup(&domain("d")).unwrap().client_key, "a");
    store.resolve_collision(
        domain("d"),
        ("a".into(), token(4, 0)),
        ("b".into(), token(1, 0)),
    );
    assert_eq!(store.lookup(&domain("d")).unwrap().client_key, "b");
}

#[test]
fn rumor_of_an_unknown_host_is_not_reclaimed() {
    let mut store = RegistryStore::new();
    store.adopt_rumor(domain("d"), "nobody".into(), token(0, 0));
    store.adopt_rumor(domain("e"), "k@elsewhere.net".into(), token(0, 0));
    store.reclaim_stale_at(u64::MAX);
    assert_eq!(store.all_rumors().len(), 2);
}

#[test]
fn all_rumors_lists_every_claim_once() {
    let mut store = RegistryStore::new();
    store.adopt_rumor(domain("d"), "x".into(), token(1, 1));
    store.adopt_rumor(domain("e"), "y".into(), token(2, 2));
    store.adopt_rumor(domain("d"), "x".into(), token(1, 1));
    let mut rumors = store.all_rumors();
    rumors.sort_by(|a, b| a.0.cmp(&b.0));
    assert_eq!(
        rumors,
        vec![
            (domain("d"), "x".to_string(), token(1, 1)),
            (domain("e"), "y".to_string(), token(2, 2)),
        ]
    );
}

#[test]
fn registration_error_messages() {
    assert_eq!(
        RegistrationError::NotLive.to_string(),
        "client is not currently live (must probe within the liveness window first)"
    );
    assert_eq!(
        RegistrationError::RegistrationLimitReached.to_string(),
        "client already holds the maximum number of registrations"
    );
}
