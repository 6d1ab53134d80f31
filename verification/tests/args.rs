use binda::address::{parse_socket_addr, SocketAddr};
use binda::args::{parse_args_from, Args, ArgsError, Flag};

fn addr(text: &str) -> SocketAddr {
    parse_socket_addr(text).unwrap()
}

fn parse(strs: &[&str]) -> Result<Args, ArgsError> {
    parse_args_from(&strs.iter().map(|s| s.to_string()).collect())
}

fn args(strs: &[&str]) -> Args {
    match parse(strs) {
        Ok(parsed) => parsed,
        Err(e) => panic!("{}", e.to_string()),
    }
}

#[test]
fn defaults_when_no_flags_given() {
    let parsed = args(&[]);
    assert_eq!(parsed.gossip_addr, addr("0.0.0.0:9530"));
    assert_eq!(parsed.resolver_addr, addr("0.0.0.0:9531"));
    assert_eq!(parsed.api_addr, addr("0.0.0.0:9532"));
    assert_eq!(parsed.dns_addr, None);
    assert!(parsed.peers.is_empty());
    assert!(!parsed.skip_rdns_verification);
}

#[test]
fn parses_each_address_flag() {
    let parsed = args(&[
        "--gossip",
        "127.0.0.1:1",
        "--resolver",
        "127.0.0.1:2",
        "--api",
        "127.0.0.1:3",
        "--dns",
        "127.0.0.1:4",
    ]);
    assert_eq!(parsed.gossip_addr, addr("127.0.0.1:1"));
    assert_eq!(parsed.resolver_addr, addr("127.0.0.1:2"));
    assert_eq!(parsed.api_addr, addr("127.0.0.1:3"));
    assert_eq!(parsed.dns_addr, Some(addr("127.0.0.1:4")));
}

#[test]
fn collects_repeated_peer_flags_in_order() {
    let parsed = args(&["--peer", "127.0.0.1:1", "--peer", "127.0.0.1:2"]);
    assert_eq!(parsed.peers, vec![addr("127.0.0.1:1"), addr("127.0.0.1:2")]);
}

#[test]
fn unrecognized_flag_is_ignored_not_fatal() {
    let parsed = args(&["--bogus", "--gossip", "127.0.0.1:1"]);
    assert_eq!(parsed.gossip_addr, addr("127.0.0.1:1"));
    assert_eq!(parsed.ignored, vec!["--bogus"]);
}

#[test]
#[should_panic(expected = "--gossip requires an address")]
fn missing_value_for_flag_panics_with_clear_message() {
    args(&["--gossip"]);
}

#[test]
#[should_panic(expected = "invalid --gossip address")]
fn unparseable_address_panics_with_clear_message() {
    args(&["--gossip", "not-an-address"]);
}

#[test]
fn first_fault_is_reported() {
    assert_eq!(
        parse(&["--api", "nowhere", "--dns"]),
        Err(ArgsError::InvalidAddress(Flag::Api))
    );
    assert_eq!(parse(&["--api", "1.2.3.4:5", "--dns"]), Err(ArgsError::MissingValue(Flag::Dns)));
    assert_eq!(parse(&["--peer", "--dns"]), Err(ArgsError::InvalidAddress(Flag::Peer)));
    assert_eq!(parse(&["--resolver"]), Err(ArgsError::MissingValue(Flag::Resolver)));
}

#[test]
fn later_flag_counts() {
    let parsed = args(&["--dns", "127.0.0.1:1", "--dns", "[::1]:2"]);
    assert_eq!(parsed.dns_addr, Some(addr("[::1]:2")));
}

#[test]
fn verification_is_skipped_only_on_demand() {
    assert!(args(&["--insecure-skip-rdns-verification"]).skip_rdns_verification);
    assert!(!args(&["--insecure-skip-rdns"]).skip_rdns_verification);
}
