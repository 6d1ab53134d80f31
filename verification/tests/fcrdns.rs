use binda::address::{parse_v4, parse_v6, IpAddr};
use binda::fcrdns::{
    default_resolvers, encode_query, forward_addresses, is_forward_confirmed, normalize,
    parse_response, ptr_query_name, read_name, reverse_names, AllowAllVerifier, Confirmation,
    FcrdnsVerifier, Query, QueryProgress, RdnsVerifier, Stage,
};

const TYPE_A: u16 = 1;
const TYPE_PTR: u16 = 12;
const TYPE_AAAA: u16 = 28;

fn v4(text: &str) -> IpAddr {
    IpAddr::V4(parse_v4(text).unwrap())
}

fn v6(text: &str) -> IpAddr {
    IpAddr::V6(parse_v6(text).unwrap())
}

fn encode_name(name: &str) -> Vec<u8> {
    let mut buf = Vec::new();
    for label in name.split('.') {
        buf.push(label.len() as u8);
        buf.extend(label.as_bytes());
    }
    buf.push(0);
    buf
}

/// What a resolver replies to a request: its question, and one answer of the
/// given type whose name is a pointer to the question.
fn reply_with(request: &[u8], rtype: u16, rdata: &[u8]) -> Vec<u8> {
    let mut response = request[0..2].to_vec();
    response.extend(0x8180u16.to_be_bytes());
    response.extend([0, 1, 0, 1, 0, 0, 0, 0]);
    response.extend(&request[12..]);
    response.extend([0xC0, 0x0C]);
    response.extend(rtype.to_be_bytes());
    response.extend([0, 1, 0, 0, 1, 44]);
    response.extend((rdata.len() as u16).to_be_bytes());
    response.extend(rdata);
    response
}

fn asked_type(request: &[u8]) -> u16 {
    u16::from_be_bytes([request[request.len() - 4], request[request.len() - 3]])
}

/// Runs a check to its end. `resolvers` reply to requests, or do not.
fn run(
    ip: IpAddr,
    claimed: &str,
    resolvers: &[&dyn Fn(&[u8]) -> Option<Vec<u8>>],
) -> (bool, Vec<(usize, u16)>) {
    let mut check = FcrdnsVerifier.begin(ip, claimed, resolvers.len());
    let mut asked = Vec::new();
    loop {
        let query = match &check.stage {
            Stage::Done(outcome) => return (*outcome, asked),
            Stage::Reverse(query) | Stage::ForwardA(query) | Stage::ForwardAaaa(query) => query,
        };
        let request = query.request();
        asked.push((query.resolver, asked_type(&request)));
        let reply = resolvers[query.resolver](&request);
        check = check.reply(&reply);
    }
}

/// Asks the resolvers in turn, and returns the answers of the first that has
/// any.
fn query(
    name: &str,
    qtype: u16,
    resolvers: &[&dyn Fn(&[u8]) -> Option<Vec<u8>>],
) -> Option<Vec<(u16, Vec<u8>)>> {
    let mut progress = Query::begin(77, name.to_string(), qtype, resolvers.len());
    loop {
        progress = match progress {
            QueryProgress::Ask(query) => {
                let reply = resolvers[query.resolver](&query.request());
                query.reply(&reply, resolvers.len())
            }
            QueryProgress::Answered(answers) => return Some(answers),
            QueryProgress::Failed => return None,
        };
    }
}

fn reverse_lookup(
    ip: IpAddr,
    resolvers: &[&dyn Fn(&[u8]) -> Option<Vec<u8>>],
) -> Option<Vec<String>> {
    query(&ptr_query_name(ip), TYPE_PTR, resolvers).map(|answers| reverse_names(&answers))
}

fn forward_lookup(name: &str, resolvers: &[&dyn Fn(&[u8]) -> Option<Vec<u8>>]) -> Vec<IpAddr> {
    forward_addresses(&query(name, TYPE_A, resolvers), &query(name, TYPE_AAAA, resolvers))
}

fn resolver(ptr: Vec<u8>, a: Vec<u8>) -> impl Fn(&[u8]) -> Option<Vec<u8>> {
    move |request: &[u8]| {
        let qtype = asked_type(request);
        let rdata = if qtype == TYPE_PTR { &ptr } else { &a };
        Some(reply_with(request, qtype, rdata))
    }
}

#[test]
fn builds_ipv4_ptr_query_name() {
    assert_eq!(ptr_query_name(v4("93.184.216.34")), "34.216.184.93.in-addr.arpa");
}

#[test]
fn builds_ipv6_ptr_query_name() {
    let name = ptr_query_name(v6("2001:db8::1"));
    assert!(name.ends_with("ip6.arpa"));
    assert_eq!(name.matches('.').count(), 33);
    assert_eq!(name.split('.').count(), 34);
    assert_eq!(
        name,
        "1.0.0.0.0.0.0.0.0.0.0.0.0.0.0.0.0.0.0.0.0.0.0.0.8.b.d.0.1.0.0.2.ip6.arpa"
    );
}

#[test]
fn round_trips_uncompressed_name() {
    let mut buf = vec![0u8; 12];
    let start = buf.len();
    buf.push(7);
    buf.extend(b"example");
    buf.push(3);
    buf.extend(b"com");
    buf.push(0);
    let (name, end) = read_name(&buf, start).unwrap();
    assert_eq!(name, "example.com");
    assert_eq!(end, buf.len());
}

#[test]
fn follows_compression_pointer() {
    let mut buf = vec![0u8; 12];
    let real_name_pos = buf.len();
    buf.push(7);
    buf.extend(b"example");
    buf.push(3);
    buf.extend(b"com");
    buf.push(0);

    let pointer_pos = buf.len();
    buf.push(0xC0 | ((real_name_pos >> 8) as u8));
    buf.push((real_name_pos & 0xFF) as u8);

    let (name, end) = read_name(&buf, pointer_pos).unwrap();
    assert_eq!(name, "example.com");
    assert_eq!(end, pointer_pos + 2);
}

#[test]
fn encode_query_contains_labels() {
    let bytes = encode_query(1, "example.com", TYPE_A);
    assert!(bytes.windows(7).any(|w| w == b"example"));
}

#[test]
fn query_byte_by_byte() {
    assert_eq!(
        encode_query(0x1234, "a.bc", TYPE_PTR),
        vec![
            0x12, 0x34, 1, 0, 0, 1, 0, 0, 0, 0, 0, 0, 1, b'a', 2, b'b', b'c', 0, 0, 12, 0, 1
        ]
    );
}

struct FakeVerifier(Vec<(IpAddr, String)>);

impl RdnsVerifier for FakeVerifier {
    fn verify(&self, source_ip: IpAddr, claimed_rdns: &str) -> bool {
        self.0
            .iter()
            .any(|(ip, host)| *ip == source_ip && host == claimed_rdns)
    }
}

#[test]
fn fake_verifier_matches_known_pair() {
    let ip = v4("203.0.113.7");
    let verifier = FakeVerifier(vec![(ip, "host.example.net".to_string())]);
    assert!(verifier.verify(ip, "host.example.net"));
    assert!(!verifier.verify(ip, "someone-else.example.net"));
}

#[test]
fn allow_all_verifier_accepts_any_claim() {
    let ip = v4("203.0.113.7");
    assert!(AllowAllVerifier.verify(ip, "literally-anything.invalid"));
    assert!(AllowAllVerifier.verify(ip, ""));
}

#[test]
fn is_forward_confirmed_true_when_both_directions_agree() {
    let working = resolver(encode_name("host.example.net"), vec![203, 0, 113, 5]);
    let (outcome, asked) = run(v4("203.0.113.5"), "host.example.net", &[&working]);
    assert!(outcome);
    assert_eq!(asked, vec![(0, TYPE_PTR), (0, TYPE_A), (0, TYPE_AAAA)]);
}

#[test]
fn is_forward_confirmed_false_when_ptr_does_not_match_claim() {
    let working = resolver(encode_name("someone-else.example.net"), vec![203, 0, 113, 5]);
    let (outcome, asked) = run(v4("203.0.113.5"), "host.example.net", &[&working]);
    assert!(!outcome);
    assert_eq!(asked, vec![(0, TYPE_PTR)]);
}

#[test]
fn is_forward_confirmed_false_when_forward_lookup_disagrees() {
    let working = resolver(encode_name("host.example.net"), vec![198, 51, 100, 9]);
    assert!(!run(v4("203.0.113.5"), "host.example.net", &[&working]).0);
}

#[test]
fn is_forward_confirmed_false_when_reverse_lookup_itself_fails() {
    let dead = |_: &[u8]| None;
    let (outcome, asked) = run(v4("203.0.113.5"), "host.example.net", &[&dead, &dead]);
    assert!(!outcome);
    assert_eq!(asked, vec![(0, TYPE_PTR), (1, TYPE_PTR)]);
    assert!(!run(v4("203.0.113.5"), "host.example.net", &[]).0);
}

#[test]
fn is_forward_confirmed_false_when_forward_lookup_itself_fails() {
    let half = |request: &[u8]| {
        if asked_type(request) == TYPE_PTR {
            Some(reply_with(request, TYPE_PTR, &encode_name("host.example.net")))
        } else {
            None
        }
    };
    let (outcome, asked) = run(v4("203.0.113.5"), "host.example.net", &[&half]);
    assert!(!outcome);
    assert_eq!(asked, vec![(0, TYPE_PTR), (0, TYPE_A), (0, TYPE_AAAA)]);
}

#[test]
fn confirms_a_version_6_address() {
    let octets = parse_v6("2001:db8::1").unwrap().to_vec();
    let working = resolver(encode_name("host.example.net"), octets);
    assert!(run(v6("2001:db8::1"), "HOST.example.net.", &[&working]).0);
}

#[test]
fn query_falls_back_to_a_later_resolver_after_an_earlier_one_fails() {
    let dead = |_: &[u8]| None;
    let second = resolver(encode_name("host.example.net"), Vec::new());
    let names = reverse_lookup(v4("203.0.113.5"), &[&dead, &second]);
    assert_eq!(names, Some(vec!["host.example.net".to_string()]));

    let lying = |request: &[u8]| {
        let mut reply = reply_with(request, TYPE_PTR, &encode_name("host.example.net"));
        reply[0] ^= 0xFF;
        Some(reply)
    };
    let working = resolver(encode_name("host.example.net"), vec![203, 0, 113, 5]);
    let (outcome, asked) = run(v4("203.0.113.5"), "host.example.net", &[&dead, &lying, &working]);
    assert!(outcome);
    assert_eq!(asked[..3], [(0, TYPE_PTR), (1, TYPE_PTR), (2, TYPE_PTR)]);
}

#[test]
fn reverse_lookup_returns_ptr_name_from_a_real_query_response() {
    let working = resolver(encode_name("host.example.net"), Vec::new());
    let names = reverse_lookup(v4("203.0.113.5"), &[&working]);
    assert_eq!(names, Some(vec!["host.example.net".to_string()]));
}

#[test]
fn forward_lookup_returns_a_record_from_a_real_query_response() {
    let working = resolver(Vec::new(), vec![203, 0, 113, 5]);
    let ips = forward_lookup("host.example.net", &[&working]);
    assert!(ips.contains(&v4("203.0.113.5")));
}

#[test]
fn unreachable_resolver_yields_error_not_panic() {
    let dead = |_: &[u8]| None;
    assert_eq!(reverse_lookup(v4("203.0.113.5"), &[&dead]), None);
}

#[test]
fn forward_lookup_returns_aaaa_record_from_a_real_query_response() {
    let octets = parse_v6("2001:db8::1").unwrap();
    let working = resolver(Vec::new(), octets.to_vec());
    let ips = forward_lookup("host.example.net", &[&working]);
    assert!(ips.contains(&IpAddr::V6(octets)));
}

#[test]
fn forward_lookup_ignores_an_answer_of_the_wrong_record_type() {
    let mismatched =
        |request: &[u8]| Some(reply_with(request, TYPE_PTR, &encode_name("irrelevant")));
    let ips = forward_lookup("host.example.net", &[&mismatched]);
    assert!(ips.is_empty());
}

#[test]
fn forward_addresses_join_both_versions() {
    let request = encode_query(7, "h", TYPE_A);
    let a = parse_response(&reply_with(&request, TYPE_A, &[203, 0, 113, 5]), 7);
    let octets = parse_v6("2001:db8::1").unwrap();
    let aaaa = parse_response(&reply_with(&request, TYPE_AAAA, &octets), 7);
    assert_eq!(forward_addresses(&a, &aaaa), vec![v4("203.0.113.5"), v6("2001:db8::1")]);
    let wrong_width = parse_response(&reply_with(&request, TYPE_A, &octets), 7);
    assert!(forward_addresses(&wrong_width, &None).is_empty());
}

#[test]
fn confirmation_needs_both_lookups() {
    let ip = v4("203.0.113.5");
    let names = Some(vec!["other".to_string(), "Host.Example.Net.".to_string()]);
    let ips = Some(vec![v6("::1"), ip]);
    assert!(is_forward_confirmed(ip, "host.example.net", &names, &ips));
    assert!(!is_forward_confirmed(ip, "host.example.net", &None, &ips));
    assert!(!is_forward_confirmed(ip, "host.example.net", &names, &None));
    assert!(!is_forward_confirmed(ip, "elsewhere", &names, &ips));
    assert!(!is_forward_confirmed(v4("203.0.113.6"), "host.example.net", &names, &ips));
}

#[test]
fn query_goes_from_resolver_to_resolver() {
    let QueryProgress::Ask(first) = Query::begin(3, "h".into(), TYPE_A, 2) else {
        panic!("nobody to ask");
    };
    assert_eq!(first.request(), encode_query(3, "h", TYPE_A));
    let QueryProgress::Ask(second) = first.reply(&None, 2) else {
        panic!("nobody else to ask");
    };
    assert_eq!(second.resolver, 1);
    let reply = reply_with(&second.request(), TYPE_A, &[1, 2, 3, 4]);
    let QueryProgress::Answered(answers) = second.reply(&Some(reply), 2) else {
        panic!("no answer");
    };
    assert_eq!(answers, vec![(TYPE_A, vec![1, 2, 3, 4])]);
    assert!(matches!(Query::begin(3, "h".into(), TYPE_A, 0), QueryProgress::Failed));
}

#[test]
fn finished_check_stays_finished() {
    let done = Confirmation::begin_with(v4("203.0.113.5"), "h", 0, 1);
    assert!(matches!(done.stage, Stage::Done(false)));
    let again = done.reply_with(&Some(vec![0; 100]), 2, 3);
    assert!(matches!(again.stage, Stage::Done(false)));
}

#[test]
fn normalize_ignores_case_and_trailing_dot() {
    assert_eq!(
        normalize("Host.Example.NET."),
        normalize("host.example.net")
    );
}

#[test]
fn encode_query_skips_an_empty_label_from_a_trailing_dot() {
    let with_dot = encode_query(1, "example.com.", TYPE_A);
    let without_dot = encode_query(1, "example.com", TYPE_A);
    assert_eq!(with_dot, without_dot);
}

#[test]
fn read_name_rejects_a_compression_pointer_loop() {
    let mut buf = vec![0u8; 12];
    let pointer_pos = buf.len();
    buf.push(0xC0 | ((pointer_pos >> 8) as u8));
    buf.push((pointer_pos & 0xFF) as u8);
    assert_eq!(read_name(&buf, pointer_pos), None);
}

#[test]
fn read_name_follows_so_many_pointers() {
    // A chain of pointers, each to the one before, down to an empty name.
    let chain = |count: usize| {
        let mut buf = vec![0u8];
        let mut target = 0usize;
        for _ in 0..count {
            let here = buf.len();
            buf.push(0xC0 | ((target >> 8) as u8));
            buf.push((target & 0xFF) as u8);
            target = here;
        }
        read_name(&buf, target)
    };
    assert_eq!(chain(32), Some((String::new(), 65)));
    assert_eq!(chain(33), None);
}

#[test]
fn read_name_replaces_bytes_that_are_no_text() {
    assert_eq!(read_name(&[2, b'a', 0xFF, 0], 0), Some(("a\u{fffd}".to_string(), 4)));
    assert_eq!(read_name(&[2, 0xC3, 0xA9, 0], 0), Some(("é".to_string(), 4)));
}

#[test]
fn read_name_refuses_what_is_cut_off() {
    assert_eq!(read_name(&[], 0), None);
    assert_eq!(read_name(&[3, b'a', b'b'], 0), None);
    assert_eq!(read_name(&[1, b'a'], 0), None);
    assert_eq!(read_name(&[0xC0], 0), None);
    assert_eq!(read_name(&[0], 5), None);
    assert_eq!(read_name(&[0], usize::MAX), None);
}

#[test]
fn parse_response_rejects_a_too_short_message() {
    assert_eq!(parse_response(&[0u8; 4], 1), None);
}

#[test]
fn parse_response_rejects_a_mismatched_id() {
    let buf = vec![0u8; 48];
    assert_eq!(parse_response(&buf, 1), None);
}

#[test]
fn error_response_has_no_answers() {
    let request = encode_query(7, "h", TYPE_A);
    let mut reply = reply_with(&request, TYPE_A, &[1, 2, 3, 4]);
    reply[3] |= 3;
    assert_eq!(parse_response(&reply, 7), Some(Vec::new()));
    let mut no_response = reply_with(&request, TYPE_A, &[1, 2, 3, 4]);
    no_response[2] = 1;
    assert_eq!(parse_response(&no_response, 7), Some(Vec::new()));
}

#[test]
fn response_that_is_cut_off_is_refused() {
    let request = encode_query(7, "h", TYPE_A);
    let reply = reply_with(&request, TYPE_A, &[1, 2, 3, 4]);
    for cut in 12..reply.len() {
        assert_eq!(parse_response(&reply[..cut], 7), None);
    }
    assert_eq!(parse_response(&reply, 7), Some(vec![(TYPE_A, vec![1, 2, 3, 4])]));
}

#[test]
fn public_resolvers() {
    assert_eq!(default_resolvers(), vec!["1.1.1.1:53", "8.8.8.8:53", "9.9.9.9:53"]);
}

#[test]
fn name_of_a_query_reads_back() {
    let query = encode_query(1, "a..bc.é.", TYPE_A);
    assert_eq!(read_name(&query, 12), Some(("a.bc.é".to_string(), query.len() - 4)));
}

#[test]
fn check_ends_after_three_queries_per_resolver() {
    let dead = |_: &[u8]| None;
    let reverse_only = |request: &[u8]| {
        if asked_type(request) == TYPE_PTR {
            Some(reply_with(request, TYPE_PTR, &encode_name("h")))
        } else {
            None
        }
    };
    let (outcome, asked) = run(v4("203.0.113.5"), "h", &[&dead, &dead, &reverse_only]);
    assert!(!outcome);
    assert_eq!(asked.len(), 9);
}

#[test]
fn pointer_data_is_the_name_that_it_holds() {
    let response = [
        0, 1, 0x81, 0x80, 0, 1, 0, 1, 0, 0, 0, 0, 1, 97, 0, 0, 12, 0, 1, 0xC0, 0x0C, 0, 12, 0, 1,
        0, 0, 1, 44, 0, 4, 1, 98, 0xC0, 0x0C,
    ];
    assert_eq!(parse_response(&response, 1), Some(vec![(TYPE_PTR, b"b.a".to_vec())]));
}
