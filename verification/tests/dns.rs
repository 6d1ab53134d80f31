use binda::dns::{
    build_response, format_error_response, parse_query, record_matches_qtype, DnsError, DnsQuery,
};
use binda::domain::{DomainName, DomainNameError};
use binda::zone::{Record, RecordType};

const TYPE_A: u16 = 1;
const CLASS_IN: u16 = 1;
const RCODE_NXDOMAIN: u16 = 3;

fn build_query_bytes(id: u16, name: &str, qtype: u16) -> Vec<u8> {
    let mut buf = Vec::new();
    buf.extend(id.to_be_bytes());
    buf.extend(0x0100u16.to_be_bytes());
    buf.extend(1u16.to_be_bytes());
    buf.extend([0u8; 6]);
    for label in name.split('.') {
        let bytes = label.as_bytes();
        buf.push(bytes.len() as u8);
        buf.extend(bytes);
    }
    buf.push(0);
    buf.extend(qtype.to_be_bytes());
    buf.extend(CLASS_IN.to_be_bytes());
    buf
}

fn record(record_type: RecordType, value: &str) -> Record {
    Record {
        name: "@".into(),
        record_type,
        ttl_secs: 300,
        value: value.into(),
    }
}

fn query(name: &str) -> DnsQuery {
    DnsQuery {
        id: 7,
        domain: DomainName::new(name).unwrap(),
        qtype: TYPE_A,
        qclass: CLASS_IN,
    }
}

/// The data of the only answer to a query for `example.binda`.
fn data_of(record: Record) -> Vec<u8> {
    let question = build_response(&query("example.binda"), true, &[]).len();
    let response = build_response(&query("example.binda"), true, &[record]);
    let len = u16::from_be_bytes([response[question + 10], response[question + 11]]) as usize;
    assert_eq!(response.len(), question + 12 + len);
    response[question + 12..].to_vec()
}

#[test]
fn parses_plain_ascii_query() {
    let bytes = build_query_bytes(0x1234, "example.binda", TYPE_A);
    let query = parse_query(&bytes).unwrap();
    assert_eq!(query.id, 0x1234);
    assert_eq!(query.domain.as_str(), "example.binda");
    assert_eq!(query.qtype, TYPE_A);
}

#[test]
fn parses_unicode_query_as_native_utf8_no_punycode() {
    let bytes = build_query_bytes(1, "🔥.binda", TYPE_A);
    assert!(!bytes.windows(4).any(|w| w == b"xn--"));
    let query = parse_query(&bytes).unwrap();
    assert_eq!(query.domain.as_str(), "🔥.binda");
}

#[test]
fn parses_mixed_script_query() {
    let bytes = build_query_bytes(2, "مرحبا.binda", TYPE_A);
    let query = parse_query(&bytes).unwrap();
    assert_eq!(query.domain.as_str(), "مرحبا.binda");
}

#[test]
fn response_echoes_unicode_labels_as_raw_utf8() {
    let query = DnsQuery {
        id: 5,
        domain: DomainName::new("🔥.binda").unwrap(),
        qtype: TYPE_A,
        qclass: CLASS_IN,
    };
    let response = build_response(&query, false, &[]);
    assert!(!response.windows(4).any(|w| w == b"xn--"));
    let fire = "🔥".as_bytes();
    assert_eq!(response[12] as usize, fire.len());
    assert_eq!(&response[13..13 + fire.len()], fire);
}

#[test]
fn builds_nxdomain_response_for_unknown_domain() {
    let query = DnsQuery {
        id: 7,
        domain: DomainName::new("example.binda").unwrap(),
        qtype: TYPE_A,
        qclass: CLASS_IN,
    };
    let response = build_response(&query, false, &[]);
    let flags = u16::from_be_bytes([response[2], response[3]]);
    assert_eq!(flags & 0x000F, RCODE_NXDOMAIN);
}

#[test]
fn builds_answer_with_a_record() {
    let query = DnsQuery {
        id: 7,
        domain: DomainName::new("example.binda").unwrap(),
        qtype: TYPE_A,
        qclass: CLASS_IN,
    };
    let record = Record {
        name: "@".into(),
        record_type: RecordType::A,
        ttl_secs: 300,
        value: "203.0.113.10".into(),
    };
    let response = build_response(&query, true, &[record]);
    let ancount = u16::from_be_bytes([response[6], response[7]]);
    assert_eq!(ancount, 1);
    assert!(response.ends_with(&[203, 0, 113, 10]));
}

#[test]
fn refuses_each_kind_of_malformed_query() {
    assert_eq!(parse_query(&[0; 11]), Err(DnsError::TooShort));

    let mut two = build_query_bytes(1, "a", TYPE_A);
    two[5] = 2;
    assert_eq!(parse_query(&two), Err(DnsError::UnsupportedQuestionCount));

    let good = build_query_bytes(1, "a.b", TYPE_A);
    for cut in 12..good.len() {
        assert_eq!(parse_query(&good[..cut]), Err(DnsError::MalformedLabel));
    }

    let mut pointer = build_query_bytes(1, "abc", TYPE_A);
    pointer[12] = 0xC0;
    assert_eq!(parse_query(&pointer), Err(DnsError::MalformedLabel));

    let mut bad_utf8 = build_query_bytes(1, "abc", TYPE_A);
    bad_utf8[13] = 0xFF;
    assert_eq!(parse_query(&bad_utf8), Err(DnsError::InvalidUtf8));

    let root = build_query_bytes(1, "", TYPE_A);
    assert_eq!(parse_query(&root[..root.len() - 1]).unwrap_err(), {
        DnsError::InvalidDomain(DomainNameError::Empty)
    });

    let space = build_query_bytes(1, "a b", TYPE_A);
    assert_eq!(
        parse_query(&space),
        Err(DnsError::InvalidDomain(DomainNameError::NonPrintableChar { offset: 1 }))
    );
}

#[test]
fn label_of_63_bytes_is_the_longest() {
    let longest = "a".repeat(63);
    let bytes = build_query_bytes(1, &longest, TYPE_A);
    assert_eq!(parse_query(&bytes).unwrap().domain.as_str(), longest);
    let response = build_response(&query(&longest), true, &[]);
    assert_eq!(parse_query(&response).unwrap(), query(&longest));

    let too_long = "a".repeat(64);
    let response = build_response(&query(&too_long), true, &[]);
    assert_eq!(response, format_error_response(7));
}

#[test]
fn response_parses_to_the_question() {
    let q = DnsQuery {
        id: 0xBEEF,
        domain: DomainName::new("🔥.مرحبا.binda").unwrap(),
        qtype: 255,
        qclass: 3,
    };
    let answers = [record(RecordType::Txt, "hello"), record(RecordType::A, "nonsense")];
    let response = build_response(&q, true, &answers);
    assert_eq!(parse_query(&response).unwrap(), q);
}

#[test]
fn format_error_has_a_bare_header() {
    assert_eq!(
        format_error_response(0x1234),
        vec![0x12, 0x34, 0x80, 0x01, 0, 0, 0, 0, 0, 0, 0, 0]
    );
}

#[test]
fn whole_response_byte_by_byte() {
    let response = build_response(&query("a.b"), true, &[record(RecordType::A, "1.2.3.4")]);
    assert_eq!(
        response,
        vec![
            0, 7, 0x84, 0, 0, 1, 0, 1, 0, 0, 0, 0, // header
            1, b'a', 1, b'b', 0, 0, 1, 0, 1, // question
            0xC0, 0x0C, 0, 1, 0, 1, 0, 0, 1, 44, 0, 4, 1, 2, 3, 4, // answer
        ]
    );
}

#[test]
fn encodes_the_data_of_each_record_type() {
    assert_eq!(data_of(record(RecordType::A, "203.0.113.10")), vec![203, 0, 113, 10]);
    assert_eq!(
        data_of(record(RecordType::Aaaa, "2001:db8::1")),
        vec![0x20, 1, 0x0d, 0xb8, 0, 0, 0, 0, 0, 0, 0, 0, 0, 0, 0, 1]
    );
    assert_eq!(
        data_of(record(RecordType::Cname, "é.b")),
        vec![2, 0xC3, 0xA9, 1, b'b', 0]
    );
    assert_eq!(data_of(record(RecordType::Ns, "n")), vec![1, b'n', 0]);
    assert_eq!(data_of(record(RecordType::Mx, "10 m")), vec![0, 10, 1, b'm', 0]);
    assert_eq!(data_of(record(RecordType::Mx, "+65535 m")), vec![255, 255, 1, b'm', 0]);
    assert_eq!(data_of(record(RecordType::Mx, "m")), vec![0, 0, 1, b'm', 0]);
    assert_eq!(data_of(record(RecordType::Txt, "hi")), vec![2, b'h', b'i']);
    assert_eq!(data_of(record(RecordType::Txt, "")), Vec::<u8>::new());
}

#[test]
fn long_text_is_cut_into_strings() {
    let data = data_of(record(RecordType::Txt, &"x".repeat(600)));
    assert_eq!(data.len(), 603);
    assert_eq!(data[0], 255);
    assert_eq!(data[256], 255);
    assert_eq!(data[512], 90);
    assert_eq!(data_of(record(RecordType::Txt, &"y".repeat(255))).len(), 256);
}

#[test]
fn data_that_cannot_be_encoded_is_left_out() {
    let empty = build_response(&query("a"), true, &[]);
    let first = record(RecordType::A, "192.0.2.1");
    let last = record(RecordType::A, "192.0.2.2");
    let both = build_response(&query("a"), true, &[first.clone(), last.clone()]);
    assert_eq!(&both[6..8], &[0, 2]);
    assert_eq!(both.len(), empty.len() + 32);
    for bad in [
        record(RecordType::A, "1.2.3"),
        record(RecordType::A, "1.2.3.256"),
        record(RecordType::A, "01.2.3.4"),
        record(RecordType::Aaaa, "1:2"),
        record(RecordType::Cname, "a..b"),
        record(RecordType::Ns, &"n".repeat(64)),
        record(RecordType::Mx, "65536 m"),
        record(RecordType::Mx, " m"),
    ] {
        let alone = build_response(&query("a"), true, &[bad.clone()]);
        assert_eq!(&alone[6..8], &[0, 0]);
        assert_eq!(alone, empty);
        let between = build_response(&query("a"), true, &[first.clone(), bad, last.clone()]);
        assert_eq!(between, both);
    }
}

#[test]
fn the_header_counts_the_answers_that_follow() {
    let question = build_response(&query("a"), true, &[]).len();
    let records = [
        record(RecordType::A, "192.0.2.1"),
        record(RecordType::Cname, "a..b"),
        record(RecordType::Txt, &"x".repeat(300)),
        record(RecordType::Mx, "10 mail"),
    ];
    let response = build_response(&query("a"), true, &records);
    let count = u16::from_be_bytes([response[6], response[7]]);
    assert_eq!(count, 3);
    let mut pos = question;
    for _ in 0..count {
        let size = u16::from_be_bytes([response[pos + 10], response[pos + 11]]);
        pos += 12 + size as usize;
    }
    assert_eq!(pos, response.len());
}

#[test]
fn records_are_selected_by_type() {
    let all = [
        (RecordType::A, 1),
        (RecordType::Ns, 2),
        (RecordType::Cname, 5),
        (RecordType::Mx, 15),
        (RecordType::Txt, 16),
        (RecordType::Aaaa, 28),
    ];
    for (record_type, code) in all {
        let r = record(record_type, "x");
        assert!(record_matches_qtype(&r, code));
        assert!(record_matches_qtype(&r, 255));
        assert!(!record_matches_qtype(&r, code + 100));
    }
}

#[test]
fn dns_error_messages() {
    assert_eq!(DnsError::TooShort.to_string(), "message shorter than a header");
    assert_eq!(
        DnsError::UnsupportedQuestionCount.to_string(),
        "message does not contain exactly one question"
    );
    assert_eq!(
        DnsError::MalformedLabel.to_string(),
        "malformed domain name label in message"
    );
    assert_eq!(DnsError::InvalidUtf8.to_string(), "label is not valid UTF-8");
    assert_eq!(
        DnsError::InvalidDomain(DomainNameError::Empty).to_string(),
        "decoded domain name is invalid: domain name must not be empty"
    );
}
