use binda::client_api::{
    probe_message, register_message, set_records_message, ClientRequest, ClientResponse,
    ProbeBody, RegisterBody, SetRecordsBody, SignedEnvelope,
};
use binda::collision::{negotiate_locally, resolve, WinCondition};
use binda::domain::DomainName;
use binda::gossip::{
    is_valid_rumor_response, is_well_formed, ConformanceChallenge, DigestEntry, GossipMessage,
    RegistrationRumor, MAX_DIGEST_ENTRIES, MAX_REQUEST_ENTRIES,
};
use binda::node::{claimed_host, Node};
use binda::peers::PeerBook;
use binda::resolver::{ResolveAnswer, ResolveQuery};
use binda::token::RegistrationToken;
use binda::zone::{Record, RecordType};
use ed25519_dalek::{Signer, SigningKey};
use rand::rngs::OsRng;

fn domain(name: &str) -> DomainName {
    DomainName::new(name).unwrap()
}

fn token(issued_at_millis: u64, nonce: u8) -> RegistrationToken {
    RegistrationToken {
        issued_at_millis,
        nonce: [nonce; 8],
    }
}

fn challenge() -> ConformanceChallenge {
    ConformanceChallenge {
        token_a: token(1, 1),
        token_b: token(2, 2),
        condition: WinCondition::LowerWins,
    }
}

fn rumor(name: &str, issued_at_millis: u64) -> RegistrationRumor {
    RegistrationRumor {
        domain: domain(name),
        token: token(issued_at_millis, 7),
        client_key: format!("key@{name}"),
    }
}

fn digest(entries: &[(&str, u64)]) -> GossipMessage {
    GossipMessage::Digest {
        rumors: entries
            .iter()
            .map(|(name, issued_at_millis)| DigestEntry {
                domain: domain(name),
                issued_at_millis: *issued_at_millis,
            })
            .collect(),
    }
}

/// A node that has learned of the given domains from a peer.
fn node_with(entries: &[(&str, u64)]) -> Node {
    let mut node = Node::new(Vec::new());
    node.handle_gossip_message_with("p", digest(entries), challenge());
    let rumors = entries.iter().map(|(name, at)| rumor(name, *at)).collect();
    node.handle_gossip_message_with(
        "p",
        GossipMessage::Rumors {
            rumors,
            challenge_answer: challenge().expected_answer(),
        },
        challenge(),
    );
    node
}

fn signed<T>(signing_key: &SigningKey, rdns: &str, message: &[u8], body: T) -> SignedEnvelope<T> {
    SignedEnvelope {
        verifying_key: signing_key.verifying_key().to_bytes().to_vec(),
        rdns: rdns.into(),
        timestamp_millis: 5,
        signature: signing_key.sign(message).to_bytes().to_vec(),
        body,
    }
}

fn knows(node: &Node, name: &str) -> bool {
    node.store().lookup(&domain(name)).is_some()
}

// Messages

#[test]
fn oversized_digest_is_rejected() {
    let rumors = (0..MAX_DIGEST_ENTRIES + 1)
        .map(|i| DigestEntry {
            domain: DomainName::new(&format!("d{i}.binda")).unwrap(),
            issued_at_millis: 0,
        })
        .collect();
    let msg = GossipMessage::Digest { rumors };
    assert!(!is_well_formed(&msg));
}

#[test]
fn normal_digest_is_accepted() {
    let msg = GossipMessage::Digest {
        rumors: vec![DigestEntry {
            domain: DomainName::new("example.binda").unwrap(),
            issued_at_millis: 0,
        }],
    };
    assert!(is_well_formed(&msg));
}

#[test]
fn oversized_request_is_rejected() {
    let domains = (0..MAX_REQUEST_ENTRIES + 1)
        .map(|i| DomainName::new(&format!("d{i}.binda")).unwrap())
        .collect();
    let msg = GossipMessage::Request {
        domains,
        challenge: ConformanceChallenge::random(0),
    };
    assert!(!is_well_formed(&msg));
}

#[test]
fn normal_request_is_accepted() {
    let msg = GossipMessage::Request {
        domains: vec![DomainName::new("example.binda").unwrap()],
        challenge: ConformanceChallenge::random(0),
    };
    assert!(is_well_formed(&msg));
}

#[test]
fn oversized_rumors_is_rejected() {
    let rumors = (0..MAX_DIGEST_ENTRIES + 1)
        .map(|i| RegistrationRumor {
            domain: DomainName::new(&format!("d{i}.binda")).unwrap(),
            token: RegistrationToken::issue(0),
            client_key: "someone".to_string(),
        })
        .collect();
    let msg = GossipMessage::Rumors {
        rumors,
        challenge_answer: RegistrationToken::issue(0),
    };
    assert!(!is_well_formed(&msg));
}

#[test]
fn normal_rumors_is_accepted() {
    let msg = GossipMessage::Rumors {
        rumors: vec![RegistrationRumor {
            domain: DomainName::new("example.binda").unwrap(),
            token: RegistrationToken::issue(0),
            client_key: "someone".to_string(),
        }],
        challenge_answer: RegistrationToken::issue(0),
    };
    assert!(is_well_formed(&msg));
}

#[test]
fn largest_messages_are_accepted() {
    let names: Vec<String> = (0..MAX_DIGEST_ENTRIES).map(|i| format!("d{i}")).collect();
    let entries: Vec<(&str, u64)> = names.iter().map(|n| (n.as_str(), 0)).collect();
    assert!(is_well_formed(&digest(&entries)));
}

#[test]
fn duplicate_domains_are_not_well_formed() {
    let domain = DomainName::new("example.binda").unwrap();
    let digest = GossipMessage::Digest {
        rumors: vec![
            DigestEntry {
                domain: domain.clone(),
                issued_at_millis: 1,
            },
            DigestEntry {
                domain,
                issued_at_millis: 2,
            },
        ],
    };
    assert!(!is_well_formed(&digest));
}

#[test]
fn rumor_response_must_be_request_scoped_and_unique() {
    let requested = vec![DomainName::new("requested.binda").unwrap()];
    let token = RegistrationToken::issue(1);
    let valid = vec![RegistrationRumor {
        domain: requested[0].clone(),
        token,
        client_key: "client".into(),
    }];
    assert!(is_valid_rumor_response(&requested, &valid));

    let unrequested = vec![RegistrationRumor {
        domain: DomainName::new("unrequested.binda").unwrap(),
        token,
        client_key: "client".into(),
    }];
    assert!(!is_valid_rumor_response(&requested, &unrequested));

    let duplicate = vec![valid[0].clone(), valid[0].clone()];
    assert!(!is_valid_rumor_response(&requested, &duplicate));
}

#[test]
fn response_may_leave_domains_out() {
    let requested = vec![domain("a"), domain("b")];
    assert!(is_valid_rumor_response(&requested, &[]));
    assert!(is_valid_rumor_response(&requested, &[rumor("b", 1)]));
}

#[test]
fn conformance_challenge_has_exactly_one_correct_answer() {
    let challenge = ConformanceChallenge::random(1_000);
    let answer = challenge.expected_answer();
    assert!(answer == challenge.token_a || answer == challenge.token_b);

    let recomputed = resolve(challenge.condition, challenge.token_a, challenge.token_b);
    assert_eq!(answer, recomputed);
}

#[test]
fn wrong_challenge_answer_is_distinguishable_from_correct() {
    let mut saw_a_correct = false;
    let mut saw_b_correct = false;
    for i in 0..200 {
        let challenge = ConformanceChallenge::random(i);
        let correct = challenge.expected_answer();
        let wrong = if correct == challenge.token_a {
            saw_a_correct = true;
            challenge.token_b
        } else {
            saw_b_correct = true;
            challenge.token_a
        };
        assert_ne!(correct, wrong);
        if saw_a_correct && saw_b_correct {
            break;
        }
    }
    assert!(saw_a_correct && saw_b_correct);
}

// The node

#[test]
fn digest_is_answered_by_a_request_for_what_is_missing() {
    let mut node = node_with(&[("old", 5), ("same", 5)]);
    let reply = node.handle_gossip_message_with(
        "q",
        digest(&[("new", 1), ("old", 6), ("same", 5)]),
        challenge(),
    );
    assert_eq!(
        reply,
        Some(GossipMessage::Request {
            domains: vec![domain("new"), domain("old")],
            challenge: challenge(),
        })
    );
    assert_eq!(node.handle_gossip_message_with("q", digest(&[("same", 4)]), challenge()), None);
}

#[test]
fn request_is_answered_by_what_is_known() {
    let mut node = node_with(&[("a", 1), ("b", 2)]);
    let reply = node.handle_gossip_message_with(
        "q",
        GossipMessage::Request {
            domains: vec![domain("b"), domain("c")],
            challenge: challenge(),
        },
        challenge(),
    );
    assert_eq!(
        reply,
        Some(GossipMessage::Rumors {
            rumors: vec![rumor("b", 2)],
            challenge_answer: token(1, 1),
        })
    );
    let nothing = GossipMessage::Request {
        domains: vec![domain("c")],
        challenge: challenge(),
    };
    assert_eq!(node.handle_gossip_message_with("q", nothing, challenge()), None);
}

#[test]
fn rumors_count_only_with_the_right_answer() {
    for (answer, believed) in [(token(1, 1), true), (token(2, 2), false), (token(0, 0), false)] {
        let mut node = Node::new(Vec::new());
        node.handle_gossip_message_with("p", digest(&[("a", 1)]), challenge());
        node.handle_gossip_message_with(
            "p",
            GossipMessage::Rumors {
                rumors: vec![rumor("a", 1)],
                challenge_answer: answer,
            },
            challenge(),
        );
        assert_eq!(knows(&node, "a"), believed);
    }
}

#[test]
fn rumors_that_were_not_asked_for_are_ignored() {
    let answered = |rumors| GossipMessage::Rumors {
        rumors,
        challenge_answer: challenge().expected_answer(),
    };
    let mut node = Node::new(Vec::new());
    node.handle_gossip_message_with("p", answered(vec![rumor("a", 1)]), challenge());
    assert!(!knows(&node, "a"));

    node.handle_gossip_message_with("p", digest(&[("a", 1)]), challenge());
    node.handle_gossip_message_with("q", answered(vec![rumor("a", 1)]), challenge());
    assert!(!knows(&node, "a"));
    node.handle_gossip_message_with("p", answered(vec![rumor("a", 1), rumor("b", 1)]), challenge());
    assert!(!knows(&node, "a") && !knows(&node, "b"));
}

#[test]
fn failure_is_not_remembered() {
    let mut node = Node::new(Vec::new());
    node.handle_gossip_message_with("p", digest(&[("a", 1)]), challenge());
    let wrong = GossipMessage::Rumors {
        rumors: vec![rumor("a", 1)],
        challenge_answer: token(2, 2),
    };
    node.handle_gossip_message_with("p", wrong, challenge());
    assert!(!knows(&node, "a"));
    node.handle_gossip_message_with("p", digest(&[("a", 1)]), challenge());
    let right = GossipMessage::Rumors {
        rumors: vec![rumor("a", 1)],
        challenge_answer: token(1, 1),
    };
    node.handle_gossip_message_with("p", right, challenge());
    assert!(knows(&node, "a"));
}

#[test]
fn answer_cannot_be_used_twice() {
    let mut node = node_with(&[("a", 1)]);
    node.handle_gossip_message_with(
        "p",
        GossipMessage::Rumors {
            rumors: vec![rumor("b", 1)],
            challenge_answer: token(1, 1),
        },
        challenge(),
    );
    assert!(!knows(&node, "b"));
}

#[test]
fn malformed_message_leaves_no_trace() {
    let mut node = Node::new(Vec::new());
    let reply = node.handle_gossip_message("p", digest(&[("a", 1), ("a", 2)]), 0);
    assert_eq!(reply, None);
    assert!(node.peers().snapshot().is_empty());
}

#[test]
fn two_nodes_converge_in_one_round() {
    let full = node_with(&[("a", 1), ("b", 2), ("🔥", 3)]);
    let mut sender = full;
    let mut receiver = Node::new(Vec::new());
    let digest = sender.digest().unwrap();
    let request = receiver.handle_gossip_message("sender", digest, 10).unwrap();
    let rumors = sender.handle_gossip_message("receiver", request, 10).unwrap();
    assert_eq!(receiver.handle_gossip_message("sender", rumors, 10), None);
    for name in ["a", "b", "🔥"] {
        assert_eq!(
            receiver.store().lookup(&domain(name)),
            sender.store().lookup(&domain(name))
        );
        assert!(knows(&receiver, name));
    }
    assert_eq!(receiver.peers().snapshot(), vec!["sender"]);
}

#[test]
fn conflicting_claims_are_settled_in_one_round() {
    for (theirs, left) in [(3, 3), (4, 1)] {
        let mut node = node_with(&[("a", 1)]);
        let mut peer = node_with(&[("a", theirs)]);
        let digest = peer.digest().unwrap();
        let request = node.handle_gossip_message("peer", digest, 10).unwrap();
        let rumors = peer.handle_gossip_message("node", request, 10).unwrap();
        assert_eq!(node.handle_gossip_message("peer", rumors, 10), None);
        let settled = node.store().lookup(&domain("a")).unwrap().token;
        assert_eq!(settled, token(left, 7));
        assert_eq!(settled, negotiate_locally(token(1, 7), token(theirs, 7)));
    }
}

#[test]
fn gossip_takes_no_place_in_the_count() {
    let mut node = node_with(&[("a", 1), ("b", 1), ("c", 1), ("d", 1), ("e", 1), ("f", 1)]);
    let signing_key = SigningKey::generate(&mut OsRng);
    let probe = signed(&signing_key, "a", &probe_message(5), ProbeBody);
    node.handle_request(ClientRequest::Probe(probe), true, 5);
    let mut granted = 0;
    for name in ["g", "h", "i", "j", "k", "l"] {
        let message = register_message(&domain(name), 5);
        let body = RegisterBody { domain: domain(name) };
        let request = ClientRequest::Register(signed(&signing_key, "a", &message, body));
        if matches!(node.handle_request(request, true, 5), ClientResponse::Registered { .. }) {
            granted += 1;
        }
    }
    assert_eq!(granted, 5);
}

#[test]
fn empty_node_has_no_digest() {
    assert_eq!(Node::new(Vec::new()).digest(), None);
    assert_eq!(Node::new(vec!["peer".into()]).push(), None);
}

#[test]
fn digest_is_pushed_to_a_peer() {
    let mut node = node_with(&[("a", 1), ("b", 2)]);
    let (peer, message) = node.push().unwrap();
    assert_eq!(peer, "p");
    assert_eq!(message, digest(&[("a", 1), ("b", 2)]));
    assert_eq!(node.handle_gossip_message("q", message, 0), None);
    let other = node.push().unwrap().0;
    assert!(other == "p" || other == "q");
}

#[test]
fn resolves_what_is_known() {
    let node = node_with(&[("a", 1)]);
    assert_eq!(
        node.resolve(&ResolveQuery { domain: domain("a") }),
        ResolveAnswer {
            owner_client_key: Some("key@a".into()),
            records: Vec::new()
        }
    );
    assert_eq!(
        node.resolve(&ResolveQuery { domain: domain("b") }),
        ResolveAnswer {
            owner_client_key: None,
            records: Vec::new()
        }
    );
}

fn lookup_message(name: &str) -> Vec<u8> {
    let mut buf = vec![0xAB, 0xCD, 1, 0, 0, 1, 0, 0, 0, 0, 0, 0];
    buf.push(name.len() as u8);
    buf.extend(name.as_bytes());
    buf.extend([0, 0, 255, 0, 1]);
    buf
}

#[test]
fn lookups_are_answered() {
    let node = node_with(&[("a", 1)]);
    let known = node.answer_lookup(&lookup_message("a")).unwrap();
    assert_eq!(&known[..4], &[0xAB, 0xCD, 0x84, 0]);
    let unknown = node.answer_lookup(&lookup_message("b")).unwrap();
    assert_eq!(&unknown[..4], &[0xAB, 0xCD, 0x84, 3]);
    let malformed = node.answer_lookup(&[0xAB, 0xCD]).unwrap();
    assert_eq!(malformed, vec![0xAB, 0xCD, 0x80, 1, 0, 0, 0, 0, 0, 0, 0, 0]);
    assert_eq!(node.answer_lookup(&[0xAB]), None);
    assert_eq!(node.answer_lookup(&[]), None);
}

#[test]
fn client_requests_reach_the_store() {
    let signing_key = SigningKey::generate(&mut OsRng);
    let probe = ClientRequest::Probe(signed(&signing_key, "h.net", &probe_message(5), ProbeBody));
    let message = register_message(&domain("d"), 5);
    let body = RegisterBody { domain: domain("d") };
    let register = ClientRequest::Register(signed(&signing_key, "h.net", &message, body));
    assert_eq!(claimed_host(&probe), None);
    assert_eq!(claimed_host(&register), Some("h.net"));

    let mut node = Node::new(Vec::new());
    assert_eq!(node.handle_request(probe, true, 5), ClientResponse::ProbeAck);
    assert_eq!(
        node.handle_request_at(register, true, 6, [4; 8]),
        ClientResponse::Registered { token: token(6, 4) }
    );
    assert!(knows(&node, "d"));
}

#[test]
fn published_records_are_served() {
    let key = SigningKey::generate(&mut OsRng);
    let mut node = Node::new(Vec::new());
    let probe = signed(&key, "h.net", &probe_message(5), ProbeBody);
    node.handle_request(ClientRequest::Probe(probe), true, 5);
    let message = register_message(&domain("d"), 5);
    let body = RegisterBody { domain: domain("d") };
    node.handle_request(ClientRequest::Register(signed(&key, "h.net", &message, body)), true, 5);
    let record = |record_type, value: &str| Record {
        name: "@".into(),
        record_type,
        ttl_secs: 300,
        value: value.into(),
    };
    let records = vec![
        record(RecordType::A, "203.0.113.10"),
        record(RecordType::Txt, "hello"),
    ];
    let message = set_records_message(&domain("d"), &records, 5);
    let body = SetRecordsBody {
        domain: domain("d"),
        records: records.clone(),
    };
    let request = ClientRequest::SetRecords(signed(&key, "h.net", &message, body));
    assert_eq!(node.handle_request(request, true, 5), ClientResponse::RecordsSet);
    assert_eq!(node.resolve(&ResolveQuery { domain: domain("d") }).records, records);

    let mut query = lookup_message("d");
    let any = node.answer_lookup(&query).unwrap();
    assert_eq!(&any[6..8], &[0, 2]);
    let qtype = query.len() - 3;
    query[qtype] = 1;
    let a = node.answer_lookup(&query).unwrap();
    assert_eq!(&a[6..8], &[0, 1]);
    assert!(a.ends_with(&[0, 4, 203, 0, 113, 10]));
}

// Peers

#[test]
fn peers_are_learned_once() {
    let mut peers = PeerBook::new(vec!["a".into()]);
    peers.learn("b");
    peers.learn("a");
    peers.learn("b");
    assert_eq!(peers.snapshot(), vec!["a", "b"]);
}

#[test]
fn random_peer_is_one_of_those_known() {
    assert_eq!(PeerBook::default().random_peer(), None);
    let peers = PeerBook::new(vec!["a".into(), "b".into()]);
    let mut seen = Vec::new();
    for _ in 0..200 {
        let peer = peers.random_peer().unwrap();
        if !seen.contains(&peer) {
            seen.push(peer);
        }
    }
    seen.sort();
    assert_eq!(seen, vec!["a", "b"]);
}
