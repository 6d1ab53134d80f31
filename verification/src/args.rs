//! The command line of a node.

use vstd::prelude::*;
use crate::address::{endpoint, endpoint_of, parse_socket_addr, IpAddr, SocketAddr};
use crate::text::{same_text, texts};

verus! {

/// What a node is started with.
#[derive(Debug, PartialEq, Eq)]
pub struct Args {
    pub gossip_addr: SocketAddr,
    pub resolver_addr: SocketAddr,
    pub api_addr: SocketAddr,
    pub dns_addr: Option<SocketAddr>,
    pub peers: Vec<SocketAddr>,
    /// Whether claimed host names are accepted unchecked.
    pub skip_rdns_verification: bool,
    /// Arguments that mean nothing.
    pub ignored: Vec<String>,
}

/// A flag that takes an address.
#[derive(Debug, Clone, Copy, PartialEq, Eq, Structural)]
pub enum Flag {
    Gossip,
    Resolver,
    Api,
    Dns,
    Peer,
}

/// What is wrong with a command line.
#[derive(Debug, Clone, Copy, PartialEq, Eq, Structural)]
pub enum ArgsError {
    /// A flag stands at the end, without its address.
    MissingValue(Flag),
    /// What follows a flag is no address.
    InvalidAddress(Flag),
}

// ---------------------------------------------------------------------
// What a command line says
// ---------------------------------------------------------------------

/// The settings as plain values. An address is octets, port and scope.
#[verifier::ext_equal]
pub struct Settings {
    pub gossip: (Seq<u8>, u16, u32),
    pub resolver: (Seq<u8>, u16, u32),
    pub api: (Seq<u8>, u16, u32),
    pub dns: Option<(Seq<u8>, u16, u32)>,
    pub peers: Seq<(Seq<u8>, u16, u32)>,
    pub skip_rdns_verification: bool,
    pub ignored: Seq<Seq<char>>,
}

/// Addresses as plain values.
pub open spec fn endpoints(addrs: Seq<SocketAddr>) -> Seq<(Seq<u8>, u16, u32)> {
    Seq::new(addrs.len(), |i: int| endpoint_of(addrs[i]))
}

impl View for Args {
    type V = Settings;

    open spec fn view(&self) -> Settings {
        Settings {
            gossip: endpoint_of(self.gossip_addr),
            resolver: endpoint_of(self.resolver_addr),
            api: endpoint_of(self.api_addr),
            dns: match self.dns_addr {
                Some(addr) => Some(endpoint_of(addr)),
                None => None,
            },
            peers: endpoints(self.peers@),
            skip_rdns_verification: self.skip_rdns_verification,
            ignored: texts(self.ignored@),
        }
    }
}

impl Flag {
    /// How the flag is written.
    pub open spec fn text(self) -> Seq<char> {
        match self {
            Flag::Gossip => "--gossip"@,
            Flag::Resolver => "--resolver"@,
            Flag::Api => "--api"@,
            Flag::Dns => "--dns"@,
            Flag::Peer => "--peer"@,
        }
    }
}

impl ArgsError {
    /// The message for people.
    pub open spec fn message(self) -> Seq<char> {
        match self {
            ArgsError::MissingValue(flag) => flag.text() + " requires an address"@,
            ArgsError::InvalidAddress(flag) => "invalid "@ + flag.text() + " address"@,
        }
    }

    /// The message for people.
    pub fn to_string(&self) -> (r: String)
        ensures
            r@ == self.message(),
    {
        match self {
            ArgsError::MissingValue(flag) => {
                let mut out = flag.as_text().to_owned();
                out.append(" requires an address");
                out
            },
            ArgsError::InvalidAddress(flag) => {
                let mut out = "invalid ".to_owned();
                out.append(flag.as_text());
                out.append(" address");
                out
            },
        }
    }
}

/// The flag that an argument is, if it is one.
pub open spec fn flag_of(arg: Seq<char>) -> Option<Flag> {
    if arg == "--gossip"@ {
        Some(Flag::Gossip)
    } else if arg == "--resolver"@ {
        Some(Flag::Resolver)
    } else if arg == "--api"@ {
        Some(Flag::Api)
    } else if arg == "--dns"@ {
        Some(Flag::Dns)
    } else if arg == "--peer"@ {
        Some(Flag::Peer)
    } else {
        None
    }
}

impl Settings {
    /// The settings with the address of a flag. Peers add up; of the others
    /// the last one counts.
    pub open spec fn with(self, flag: Flag, at: (Seq<u8>, u16, u32)) -> Settings {
        match flag {
            Flag::Gossip => Settings { gossip: at, ..self },
            Flag::Resolver => Settings { resolver: at, ..self },
            Flag::Api => Settings { api: at, ..self },
            Flag::Dns => Settings { dns: Some(at), ..self },
            Flag::Peer => Settings { peers: self.peers.push(at), ..self },
        }
    }

    /// The settings of an empty command line.
    pub open spec fn standard() -> Settings {
        Settings {
            gossip: (seq![0u8, 0, 0, 0], 9530, 0),
            resolver: (seq![0u8, 0, 0, 0], 9531, 0),
            api: (seq![0u8, 0, 0, 0], 9532, 0),
            dns: None,
            peers: Seq::empty(),
            skip_rdns_verification: false,
            ignored: Seq::empty(),
        }
    }
}

/// The settings after all of `args`, or the first thing that is wrong.
pub open spec fn settings_after(args: Seq<Seq<char>>, sofar: Settings) -> Result<
    Settings,
    ArgsError,
>
    decreases args.len(),
{
    if args.len() == 0 {
        Ok(sofar)
    } else if args[0] == "--insecure-skip-rdns-verification"@ {
        settings_after(args.skip(1), Settings { skip_rdns_verification: true, ..sofar })
    } else {
        match flag_of(args[0]) {
            None => settings_after(
                args.skip(1),
                Settings { ignored: sofar.ignored.push(args[0]), ..sofar },
            ),
            Some(flag) => if args.len() < 2 {
                Err(ArgsError::MissingValue(flag))
            } else {
                match endpoint(args[1]) {
                    None => Err(ArgsError::InvalidAddress(flag)),
                    Some(at) => settings_after(args.skip(2), sofar.with(flag, at)),
                }
            },
        }
    }
}

// ---------------------------------------------------------------------
// Reading a command line
// ---------------------------------------------------------------------

impl Flag {
    /// How the flag is written.
    pub fn as_text(&self) -> (r: &'static str)
        ensures
            r@ == self.text(),
    {
        match self {
            Flag::Gossip => "--gossip",
            Flag::Resolver => "--resolver",
            Flag::Api => "--api",
            Flag::Dns => "--dns",
            Flag::Peer => "--peer",
        }
    }

    /// The flag that an argument is, if it is one.
    fn from_text(arg: &str) -> (r: Option<Flag>)
        ensures
            r == flag_of(arg@),
    {
        if same_text(arg, "--gossip") {
            Some(Flag::Gossip)
        } else if same_text(arg, "--resolver") {
            Some(Flag::Resolver)
        } else if same_text(arg, "--api") {
            Some(Flag::Api)
        } else if same_text(arg, "--dns") {
            Some(Flag::Dns)
        } else if same_text(arg, "--peer") {
            Some(Flag::Peer)
        } else {
            None
        }
    }
}

/// Any address of this host, at a port.
fn any_address(port: u16) -> (r: SocketAddr)
    ensures
        endpoint_of(r) == (seq![0u8, 0, 0, 0], port, 0u32),
{
    let octets: [u8; 4] = [0, 0, 0, 0];
    assert(octets@ =~= seq![0u8, 0, 0, 0]);
    SocketAddr { ip: IpAddr::V4(octets), port, scope_id: 0 }
}

impl Args {
    /// What an empty command line stands for.
    pub fn standard() -> (r: Self)
        ensures
            r@ == Settings::standard(),
    {
        let r = Args {
            gossip_addr: any_address(9530),
            resolver_addr: any_address(9531),
            api_addr: any_address(9532),
            dns_addr: None,
            peers: Vec::new(),
            skip_rdns_verification: false,
            ignored: Vec::new(),
        };
        assert(r@ =~= Settings::standard());
        r
    }

    /// Takes the address of a flag.
    fn set(&mut self, flag: Flag, addr: SocketAddr)
        ensures
            final(self)@ == old(self)@.with(flag, endpoint_of(addr)),
    {
        match flag {
            Flag::Gossip => {
                self.gossip_addr = addr;
            },
            Flag::Resolver => {
                self.resolver_addr = addr;
            },
            Flag::Api => {
                self.api_addr = addr;
            },
            Flag::Dns => {
                self.dns_addr = Some(addr);
            },
            Flag::Peer => {
                self.peers.push(addr);
            },
        }
        assert(self@ =~= old(self)@.with(flag, endpoint_of(addr)));
    }
}

/// Reads a command line, without the name of the program. A flag that is not
/// known is put aside, and one that stands twice counts the second time.
pub fn parse_args_from(args: &Vec<String>) -> (r: Result<Args, ArgsError>)
    ensures
        match r {
            Ok(parsed) => settings_after(texts(args@), Settings::standard()) == Ok::<_, ArgsError>(
                parsed@,
            ),
            Err(e) => settings_after(texts(args@), Settings::standard()) == Err::<Settings, _>(e),
        },
{
    let ghost all = texts(args@);
    let ghost whole = settings_after(all, Settings::standard());
    let mut parsed = Args::standard();
    let mut i: usize = 0;
    assert(all.skip(0) =~= all);
    while i < args.len()
        invariant
            all == texts(args@),
            whole == settings_after(all, Settings::standard()),
            i <= args@.len(),
            whole == settings_after(all.skip(i as int), parsed@),
        decreases args.len() - i,
    {
        let ghost rest = all.skip(i as int);
        assert(rest[0] == args@[i as int]@);
        assert(rest.skip(1) =~= all.skip(i + 1));
        let ghost before = parsed@;
        if same_text(args[i].as_str(), "--insecure-skip-rdns-verification") {
            parsed.skip_rdns_verification = true;
            assert(parsed@ =~= (Settings { skip_rdns_verification: true, ..before }));
            i = i + 1;
        } else {
            match Flag::from_text(args[i].as_str()) {
                None => {
                    parsed.ignored.push(args[i].clone());
                    assert(parsed@ =~= (Settings {
                        ignored: before.ignored.push(rest[0]),
                        ..before
                    }));
                    i = i + 1;
                },
                Some(flag) => {
                    if args.len() - i < 2 {
                        return Err(ArgsError::MissingValue(flag));
                    }
                    assert(rest[1] == args@[i + 1]@);
                    assert(rest.skip(2) =~= all.skip(i + 2));
                    match parse_socket_addr(args[i + 1].as_str()) {
                        Some(addr) => {
                            parsed.set(flag, addr);
                        },
                        None => {
                            return Err(ArgsError::InvalidAddress(flag));
                        },
                    }
                    i = i + 2;
                },
            }
        }
    }
    Ok(parsed)
}

// ---------------------------------------------------------------------
// Laws
// ---------------------------------------------------------------------

/// Every flag is read as itself.
pub proof fn law_flag_reads_itself(flag: Flag)
    ensures
        flag_of(flag.text()) == Some(flag),
{
    reveal_strlit("--gossip");
    reveal_strlit("--resolver");
    reveal_strlit("--api");
    reveal_strlit("--dns");
    reveal_strlit("--peer");
    assert("--gossip"@[2] == 'g' && "--resolver"@[2] == 'r' && "--api"@[2] == 'a' && "--dns"@[2]
        == 'd' && "--peer"@[2] == 'p');
}

/// What is said of a command line holds of every one that starts with it:
/// later arguments are read from the settings that earlier ones left.
pub proof fn law_arguments_in_order(
    front: Seq<Seq<char>>,
    back: Seq<Seq<char>>,
    start: Settings,
)
    requires
        settings_after(front, start) is Ok,
    ensures
        settings_after(front + back, start) == settings_after(
            back,
            settings_after(front, start)->Ok_0,
        ),
    decreases front.len(),
{
    let all = front + back;
    if front.len() == 0 {
        assert(all =~= back);
    } else {
        assert(all[0] == front[0]);
        assert(all.skip(1) =~= front.skip(1) + back);
        if front[0] == "--insecure-skip-rdns-verification"@ {
            law_arguments_in_order(
                front.skip(1),
                back,
                Settings { skip_rdns_verification: true, ..start },
            );
        } else {
            match flag_of(front[0]) {
                None => {
                    law_arguments_in_order(
                        front.skip(1),
                        back,
                        Settings { ignored: start.ignored.push(front[0]), ..start },
                    );
                },
                Some(flag) => {
                    assert(all[1] == front[1]);
                    assert(all.skip(2) =~= front.skip(2) + back);
                    law_arguments_in_order(
                        front.skip(2),
                        back,
                        start.with(flag, endpoint(front[1])->0),
                    );
                },
            }
        }
    }
}

/// An argument is a flag exactly where it is written like it.
pub proof fn law_flags_by_spelling(arg: Seq<char>, flag: Flag)
    ensures
        flag_of(arg) == Some(flag) <==> arg == match flag {
            Flag::Gossip => "--gossip"@,
            Flag::Resolver => "--resolver"@,
            Flag::Api => "--api"@,
            Flag::Dns => "--dns"@,
            Flag::Peer => "--peer"@,
        },
        flag.text() == match flag {
            Flag::Gossip => "--gossip"@,
            Flag::Resolver => "--resolver"@,
            Flag::Api => "--api"@,
            Flag::Dns => "--dns"@,
            Flag::Peer => "--peer"@,
        },
{
    law_flag_reads_itself(flag);
}

/// A flag sets its own address and no other; peers add up.
pub proof fn law_flag_sets_its_own(s: Settings, flag: Flag, at: (Seq<u8>, u16, u32))
    ensures
        ({
            let after = s.with(flag, at);
            &&& after.gossip == if flag == Flag::Gossip {
                at
            } else {
                s.gossip
            }
            &&& after.resolver == if flag == Flag::Resolver {
                at
            } else {
                s.resolver
            }
            &&& after.api == if flag == Flag::Api {
                at
            } else {
                s.api
            }
            &&& after.dns == if flag == Flag::Dns {
                Some(at)
            } else {
                s.dns
            }
            &&& after.peers == if flag == Flag::Peer {
                s.peers.push(at)
            } else {
                s.peers
            }
            &&& after.skip_rdns_verification == s.skip_rdns_verification
            &&& after.ignored == s.ignored
        }),
{
}

/// An empty command line leaves gossip, resolver and client interface at any
/// address of the host and the ports 9530, 9531 and 9532, without name lookup
/// and peers, and with host names verified.
pub proof fn law_standard_settings(i: int)
    requires
        0 <= i < 4,
    ensures
        ({
            let s = Settings::standard();
            &&& settings_after(Seq::empty(), s) == Ok::<_, ArgsError>(s)
            &&& s.gossip.0.len() == 4 && s.resolver.0.len() == 4 && s.api.0.len() == 4
            &&& s.gossip.0[i] == 0 && s.resolver.0[i] == 0 && s.api.0[i] == 0
            &&& s.gossip.1 == 9530 && s.resolver.1 == 9531 && s.api.1 == 9532
            &&& s.gossip.2 == 0 && s.resolver.2 == 0 && s.api.2 == 0
            &&& s.dns is None
            &&& s.peers.len() == 0
            &&& !s.skip_rdns_verification
            &&& s.ignored.len() == 0
        }),
{
}

/// Arguments are read from the front: a flag takes the address behind it, and
/// it is an error where there is none or it is no address; the switch stands
/// alone; and anything else is put aside.
pub proof fn law_arguments_from_front(
    flag: Flag,
    addr: Seq<char>,
    other: Seq<char>,
    rest: Seq<Seq<char>>,
    start: Settings,
)
    requires
        flag_of(other) is None,
        other != "--insecure-skip-rdns-verification"@,
    ensures
        settings_after(seq![flag.text()], start) == Err::<Settings, _>(
            ArgsError::MissingValue(flag),
        ),
        settings_after(seq![flag.text(), addr] + rest, start) == (match endpoint(addr) {
            None => Err(ArgsError::InvalidAddress(flag)),
            Some(at) => settings_after(rest, start.with(flag, at)),
        }),
        settings_after(seq!["--insecure-skip-rdns-verification"@] + rest, start) == settings_after(
            rest,
            Settings { skip_rdns_verification: true, ..start },
        ),
        settings_after(seq![other] + rest, start) == settings_after(
            rest,
            Settings { ignored: start.ignored.push(other), ..start },
        ),
{
    reveal_strlit("--insecure-skip-rdns-verification");
    reveal_strlit("--gossip");
    reveal_strlit("--resolver");
    reveal_strlit("--api");
    reveal_strlit("--dns");
    reveal_strlit("--peer");
    law_flag_reads_itself(flag);
    assert(flag.text().len() < "--insecure-skip-rdns-verification"@.len());
    let a = seq![flag.text(), addr] + rest;
    assert(a[0] == flag.text() && a[1] == addr);
    assert(a.skip(2) =~= rest);
    let b = seq!["--insecure-skip-rdns-verification"@] + rest;
    assert(b.skip(1) =~= rest);
    let c = seq![other] + rest;
    assert(c.skip(1) =~= rest);
}

/// The settings of arguments are what the arguments hold.
pub proof fn law_settings_are_arguments(args: Args, i: int)
    ensures
        args@.gossip == endpoint_of(args.gossip_addr),
        args@.resolver == endpoint_of(args.resolver_addr),
        args@.api == endpoint_of(args.api_addr),
        args.dns_addr matches Some(addr) ==> args@.dns == Some(endpoint_of(addr)),
        args.dns_addr is None ==> args@.dns is None,
        args@.peers.len() == args.peers@.len(),
        0 <= i < args.peers@.len() ==> args@.peers[i] == endpoint_of(args.peers@[i]),
        args@.skip_rdns_verification == args.skip_rdns_verification,
        args@.ignored.len() == args.ignored@.len(),
        0 <= i < args.ignored@.len() ==> args@.ignored[i] == args.ignored@[i]@,
{
}

} // verus!
