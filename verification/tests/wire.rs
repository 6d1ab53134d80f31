use binda::domain::DomainName;
use binda::gossip::{DigestEntry, GossipMessage};
use binda::wire::{decode, encode, WireError, MAX_DATAGRAM_BYTES};
use serde_json::{Error, Value};

fn to_json(message: &GossipMessage) -> Result<Vec<u8>, Error> {
    let GossipMessage::Digest { rumors } = message else {
        panic!("only digests are sent here");
    };
    let entries = rumors
        .iter()
        .map(|entry| {
            let mut fields = serde_json::Map::new();
            fields.insert("domain".into(), Value::from(entry.domain.as_str()));
            fields.insert("issued_at_millis".into(), Value::from(entry.issued_at_millis));
            Value::Object(fields)
        })
        .collect();
    let mut body = serde_json::Map::new();
    body.insert("rumors".into(), Value::Array(entries));
    let mut tagged = serde_json::Map::new();
    tagged.insert("Digest".into(), Value::Object(body));
    serde_json::to_vec(&Value::Object(tagged))
}

fn from_json(bytes: &[u8]) -> Result<GossipMessage, Error> {
    let value: Value = serde_json::from_slice(bytes)?;
    let rumors = value["Digest"]["rumors"]
        .as_array()
        .unwrap()
        .iter()
        .map(|entry| DigestEntry {
            domain: DomainName::new(entry["domain"].as_str().unwrap()).unwrap(),
            issued_at_millis: entry["issued_at_millis"].as_u64().unwrap(),
        })
        .collect();
    Ok(GossipMessage::Digest { rumors })
}

#[test]
fn round_trips_a_gossip_message() {
    let msg = GossipMessage::Digest {
        rumors: vec![DigestEntry {
            domain: DomainName::new("example.binda").unwrap(),
            issued_at_millis: 42,
        }],
    };
    let bytes = encode(&msg, to_json).unwrap();
    let decoded: GossipMessage = decode(&bytes, from_json).unwrap();
    assert_eq!(msg, decoded);
}

#[test]
fn rejects_oversized_input() {
    let huge = vec![0u8; MAX_DATAGRAM_BYTES + 1];
    let result: Result<GossipMessage, _> = decode(&huge, from_json);
    assert!(matches!(result, Err(WireError::TooLarge { .. })));
}

#[test]
fn oversized_input_is_not_parsed() {
    let huge = vec![0u8; MAX_DATAGRAM_BYTES + 1];
    let result: Result<GossipMessage, _> = decode(&huge, |_| panic!("parsed"));
    assert!(matches!(
        result,
        Err(WireError::TooLarge {
            actual: 65_508,
            max: 65_507
        })
    ));
}

#[test]
fn rejects_oversized_output() {
    let fits = encode(&MAX_DATAGRAM_BYTES, |len: &usize| Ok(vec![7; *len]));
    assert_eq!(fits.unwrap().len(), MAX_DATAGRAM_BYTES);
    let too_long = encode(&(MAX_DATAGRAM_BYTES + 1), |len: &usize| Ok(vec![7; *len]));
    assert!(matches!(
        too_long,
        Err(WireError::TooLarge {
            actual: 65_508,
            max: 65_507
        })
    ));
}

#[test]
fn codec_errors_are_passed_on() {
    let bad: Result<GossipMessage, _> = decode(b"{", from_json);
    assert!(matches!(bad, Err(WireError::Decode(_))));
    let failing = encode(&(), |_: &()| Err(serde_json::from_slice::<Value>(b"{").unwrap_err()));
    assert!(matches!(failing, Err(WireError::Encode(_))));
}

#[test]
fn wire_error_messages() {
    let huge = vec![0u8; MAX_DATAGRAM_BYTES + 1];
    let too_large = decode(&huge, from_json).unwrap_err();
    assert_eq!(
        too_large.to_string(),
        "encoded message of 65508 bytes exceeds the 65507 byte limit"
    );
    let cause = from_json(b"{").unwrap_err().to_string();
    let undecodable = decode(b"{", from_json).unwrap_err();
    assert_eq!(undecodable.to_string(), format!("failed to deserialize message: {cause}"));
    let failing = encode(&(), |_: &()| Err(serde_json::from_slice::<Value>(b"{").unwrap_err()));
    assert_eq!(
        failing.unwrap_err().to_string(),
        format!("failed to serialize message: {cause}")
    );
}
