//! Forward-confirmed reverse DNS.
//!
//! A client asserts the host name that it speaks for. The claim is held
//! against the public DNS:
//!
//! 1. **Reverse**: the names that the address of the request points to.
//! 2. **Forward**: the claimed name has to be one of those, and its own
//!    addresses have to include the address of the request.
//!
//! Both directions have to agree. This is what ties the number of domains
//! per host to a host that somebody controls, and not to a key that costs
//! nothing.
//!
//! The messages here are those of the classic DNS. Sending them is left to
//! the caller: a [`Confirmation`] says what to ask and whom, and takes the
//! reply.

use vstd::prelude::*;
use vstd::utf8::{decode_utf8, encode_utf8, valid_utf8};
use crate::address::{octets_of, IpAddr};
use crate::bytes::{
    be16, bytes_between, push_be16, push_be32, push_bytes, read_be16, utf8_text, value16,
};
use crate::text::{
    decimal, decimal_text, hex_char, hex_digit, join, join_text, lemma_join_split,
    lemma_split_append, lower, lower_text, split, split_text, texts, trim_back_char, trim_end_char,
};

verus! {

const TYPE_A: u16 = 1;
const TYPE_PTR: u16 = 12;
const TYPE_AAAA: u16 = 28;
const CLASS_IN: u16 = 1;

/// How many compression pointers are followed within one name.
const MAX_JUMPS: u32 = 32;

/// The public resolvers, to be tried in this order until one answers.
pub fn default_resolvers() -> (r: Vec<String>)
    ensures
        texts(r@) == seq!["1.1.1.1:53"@, "8.8.8.8:53"@, "9.9.9.9:53"@],
{
    let mut out: Vec<String> = Vec::new();
    out.push("1.1.1.1:53".to_owned());
    out.push("8.8.8.8:53".to_owned());
    out.push("9.9.9.9:53".to_owned());
    assert(texts(out@) =~= seq!["1.1.1.1:53"@, "8.8.8.8:53"@, "9.9.9.9:53"@]);
    out
}

// ---------------------------------------------------------------------
// Verifiers
// ---------------------------------------------------------------------

/// Whoever can be asked whether an address forward-confirms a host name.
pub trait RdnsVerifier: Send + Sync {
    fn verify(&self, source_ip: IpAddr, claimed_rdns: &str) -> bool;
}

/// The verifier that holds claims against the public DNS. It knows what to
/// ask; see [`FcrdnsVerifier::begin`].
#[derive(Debug, Clone, Copy)]
pub struct FcrdnsVerifier;

/// A verifier that accepts every claim unchecked.
///
/// **Never use this in a real deployment.** It is for trying out a node
/// where no claim could ever be confirmed: on a laptop, behind a router, on
/// the loopback interface. With it the limit per host means nothing more
/// than a limit per key.
#[derive(Debug, Clone, Copy)]
pub struct AllowAllVerifier;

impl Default for FcrdnsVerifier {
    fn default() -> (r: Self)
        ensures
            r == FcrdnsVerifier,
    {
        FcrdnsVerifier
    }
}

impl Default for AllowAllVerifier {
    fn default() -> (r: Self)
        ensures
            r == AllowAllVerifier,
    {
        AllowAllVerifier
    }
}

impl RdnsVerifier for AllowAllVerifier {
    fn verify(&self, source_ip: IpAddr, claimed_rdns: &str) -> (r: bool)
        ensures
            r,
    {
        true
    }
}

// ---------------------------------------------------------------------
// Names
// ---------------------------------------------------------------------

/// A host name as it is compared: without trailing dots, in lower case.
pub open spec fn normal(hostname: Seq<char>) -> Seq<char> {
    lower(trim_back_char(hostname, '.'))
}

/// Brings a host name into the form in which it is compared.
pub fn normalize(hostname: &str) -> (r: String)
    ensures
        r@ == normal(hostname@),
{
    lower_text(trim_end_char(hostname, '.').as_str())
}

/// The half bytes of `octets`, last first, each a hexadecimal digit and a
/// dot.
pub open spec fn reversed_nibbles(octets: Seq<u8>) -> Seq<char>
    decreases octets.len(),
{
    if octets.len() == 0 {
        Seq::empty()
    } else {
        let b = octets.last() as int;
        seq![hex_digit(b % 16), '.', hex_digit(b / 16), '.'] + reversed_nibbles(octets.drop_last())
    }
}

/// The name under which the names of an address are kept.
pub open spec fn reverse_name(ip: IpAddr) -> Seq<char> {
    match ip {
        IpAddr::V4(o) => decimal(o@[3] as nat) + seq!['.'] + decimal(o@[2] as nat) + seq!['.']
            + decimal(o@[1] as nat) + seq!['.'] + decimal(o@[0] as nat) + ".in-addr.arpa"@,
        IpAddr::V6(o) => reversed_nibbles(o@) + "ip6.arpa"@,
    }
}

/// The name to ask for the names of an address.
pub fn ptr_query_name(ip: IpAddr) -> (r: String)
    ensures
        r@ == reverse_name(ip),
{
    match ip {
        IpAddr::V4(o) => {
            let mut out = decimal_text(o[3] as u64);
            out.push('.');
            out.append(decimal_text(o[2] as u64).as_str());
            out.push('.');
            out.append(decimal_text(o[1] as u64).as_str());
            out.push('.');
            out.append(decimal_text(o[0] as u64).as_str());
            out.append(".in-addr.arpa");
            assert(out@ =~= reverse_name(ip));
            out
        },
        IpAddr::V6(o) => {
            let mut out = String::new();
            let mut left: usize = 16;
            assert(o@.take(16) =~= o@);
            while left > 0
                invariant
                    left <= 16,
                    o@.len() == 16,
                    out@ + reversed_nibbles(o@.take(left as int)) == reversed_nibbles(o@),
                decreases left,
            {
                let ghost before = out@;
                let b: u8 = o[left - 1];
                out.push(hex_char(b % 16));
                out.push('.');
                out.push(hex_char(b / 16));
                out.push('.');
                proof {
                    let taken = o@.take(left as int);
                    assert(taken.drop_last() =~= o@.take(left - 1));
                    assert(taken.last() == b);
                    assert(out@ + reversed_nibbles(o@.take(left - 1)) =~= before
                        + reversed_nibbles(taken));
                }
                left = left - 1;
            }
            assert(out@ =~= reversed_nibbles(o@)) by {
                assert(o@.take(0).len() == 0);
            }
            out.append("ip6.arpa");
            out
        },
    }
}

// ---------------------------------------------------------------------
// Queries
// ---------------------------------------------------------------------

/// The labels of a query, each behind its length (modulo 256); empty labels
/// are left out.
pub open spec fn query_labels(labels: Seq<Seq<char>>) -> Seq<u8>
    decreases labels.len(),
{
    if labels.len() == 0 {
        Seq::empty()
    } else {
        let front = query_labels(labels.drop_last());
        let last = encode_utf8(labels.last());
        if labels.last().len() == 0 {
            front
        } else {
            front.push((last.len() % 256) as u8) + last
        }
    }
}

/// A query that asks for recursion.
pub open spec fn query_bytes(id: u16, name: Seq<char>, qtype: u16) -> Seq<u8> {
    be16(id) + be16(0x0100) + be16(1) + seq![0u8, 0, 0, 0, 0, 0] + query_labels(
        split(name, '.'),
    ).push(0) + be16(qtype) + be16(1)
}

/// Builds a query.
pub fn encode_query(id: u16, name: &str, qtype: u16) -> (r: Vec<u8>)
    ensures
        r@ == query_bytes(id, name@, qtype),
{
    let mut buf: Vec<u8> = Vec::new();
    push_be16(&mut buf, id);
    push_be16(&mut buf, 0x0100);
    push_be16(&mut buf, 1);
    push_be32(&mut buf, 0);
    push_be16(&mut buf, 0);
    let ghost front = buf@;
    assert(front =~= be16(id) + be16(0x0100) + be16(1) + seq![0u8, 0, 0, 0, 0, 0]);
    let labels = split_text(name, '.');
    let ghost all = split(name@, '.');
    let mut i: usize = 0;
    assert(all.take(0) =~= Seq::empty());
    assert(buf@ =~= front + query_labels(all.take(0)));
    while i < labels.len()
        invariant
            texts(labels@) == all,
            i <= labels@.len(),
            buf@ == front + query_labels(all.take(i as int)),
        decreases labels.len() - i,
    {
        assert(all.take(i + 1).drop_last() =~= all.take(i as int));
        assert(all[i as int] == labels@[i as int]@);
        let bytes = labels[i].as_str().as_bytes();
        proof {
            lemma_empty_bytes(all[i as int]);
        }
        if bytes.len() > 0 {
            buf.push((bytes.len() % 256) as u8);
            push_bytes(&mut buf, bytes);
        }
        assert(buf@ =~= front + query_labels(all.take(i + 1)));
        i = i + 1;
    }
    assert(all.take(i as int) =~= all);
    buf.push(0);
    push_be16(&mut buf, qtype);
    push_be16(&mut buf, CLASS_IN);
    assert(buf@ =~= query_bytes(id, name@, qtype));
    buf
}

/// Only the empty text has no bytes.
proof fn lemma_empty_bytes(s: Seq<char>)
    ensures
        s.len() == 0 <==> encode_utf8(s).len() == 0,
{
    if s.len() > 0 {
        vstd::utf8::encode_utf8_first_scalar(s);
    }
}

// ---------------------------------------------------------------------
// Responses
// ---------------------------------------------------------------------

/// What `String::from_utf8_lossy` makes of `bytes`.
pub uninterp spec fn lossy_text(bytes: Seq<u8>) -> Seq<char>;

/// `String::from_utf8_lossy`: the text that the bytes encode where they are
/// UTF-8. Which replacement characters stand in for other bytes is left to
/// the function, but depends on the bytes alone.
#[verifier::external_body]
fn lossy(bytes: &[u8]) -> (r: String)
    ensures
        r@ == lossy_text(bytes@),
        valid_utf8(bytes@) ==> r@ == decode_utf8(bytes@),
{
    String::from_utf8_lossy(bytes).into_owned()
}

/// The text of a label: what its bytes encode where they are UTF-8.
pub open spec fn label_text(bytes: Seq<u8>) -> Seq<char> {
    if valid_utf8(bytes) {
        decode_utf8(bytes)
    } else {
        lossy_text(bytes)
    }
}

/// The labels of the name at `pos`, after `jumps` compression pointers, and
/// the position behind the name where it stands.
pub open spec fn name_at(buf: Seq<u8>, pos: int, jumps: int) -> Option<(Seq<Seq<char>>, int)>
    decreases 33 - jumps, buf.len() - pos,
{
    if pos < 0 || pos >= buf.len() || jumps > 32 {
        None
    } else {
        let b = buf[pos] as int;
        if b == 0 {
            Some((Seq::empty(), pos + 1))
        } else if b >= 192 {
            if pos + 1 >= buf.len() || jumps >= 32 {
                None
            } else {
                match name_at(buf, (b - 192) * 256 + buf[pos + 1] as int, jumps + 1) {
                    None => None,
                    Some((labels, _)) => Some((labels, pos + 2)),
                }
            }
        } else if pos + 1 + b > buf.len() {
            None
        } else {
            match name_at(buf, pos + 1 + b, jumps) {
                None => None,
                Some((rest, next)) => Some(
                    (seq![label_text(buf.subrange(pos + 1, pos + 1 + b))] + rest, next),
                ),
            }
        }
    }
}

/// Reads the possibly compressed name at `start`, and the position behind
/// it, not following any pointer.
pub fn read_name(buf: &[u8], start: usize) -> (r: Option<(String, usize)>)
    ensures
        match r {
            Some((name, end)) => name_at(buf@, start as int, 0) matches Some((labels, next))
                && name@ == join(labels, '.') && end == next && end <= buf@.len(),
            None => name_at(buf@, start as int, 0) is None,
        },
{
    let len: usize = buf.len();
    let mut labels: Vec<String> = Vec::new();
    let mut pos: usize = start;
    let mut end_pos: Option<usize> = None;
    let mut jumps: u32 = 0;
    let ghost whole = name_at(buf@, start as int, 0);
    proof {
        if let Some((rest, next)) = whole {
            assert(texts(labels@) + rest =~= rest);
        }
    }
    loop
        invariant_except_break
            len == buf@.len(),
            whole == name_at(buf@, start as int, 0),
            jumps <= 32,
            end_pos matches Some(e) ==> e <= len,
            match name_at(buf@, pos as int, jumps as int) {
                None => whole is None,
                Some((rest, next)) => whole == Some(
                    (
                        texts(labels@) + rest,
                        match end_pos {
                            Some(e) => e as int,
                            None => next,
                        },
                    ),
                ),
            },
        ensures
            end_pos is Some,
            end_pos->0 <= len,
            whole == Some((texts(labels@), end_pos->0 as int)),
        decreases 32 - jumps, len - pos,
    {
        if pos >= len {
            return None;
        }
        let b: usize = buf[pos] as usize;
        if b == 0 {
            if end_pos.is_none() {
                end_pos = Some(pos + 1);
            }
            assert(texts(labels@) + Seq::<Seq<char>>::empty() =~= texts(labels@));
            break ;
        }
        if b >= 192 {
            if len - pos < 2 {
                return None;
            }
            let second: usize = buf[pos + 1] as usize;
            if jumps >= MAX_JUMPS {
                return None;
            }
            if end_pos.is_none() {
                end_pos = Some(pos + 2);
            }
            jumps = jumps + 1;
            pos = (b - 192) * 256 + second;
            continue ;
        }
        if b > len - pos - 1 {
            return None;
        }
        let bytes = bytes_between(buf, pos + 1, pos + 1 + b);
        let label = lossy(bytes.as_slice());
        let ghost done = texts(labels@);
        let ghost text = label@;
        labels.push(label);
        proof {
            assert(texts(labels@) =~= done.push(text));
            if let Some((rest, next)) = name_at(buf@, pos + 1 + b, jumps as int) {
                assert(done + (seq![text] + rest) =~= done.push(text) + rest);
            }
        }
        pos = pos + 1 + b;
    }
    match end_pos {
        Some(end) => Some((join_text(&labels, '.'), end)),
        None => None,
    }
}

/// The position behind `n` questions from `pos` on.
pub open spec fn questions_end(buf: Seq<u8>, pos: int, n: nat) -> Option<int>
    decreases n,
{
    if n == 0 {
        Some(pos)
    } else {
        match name_at(buf, pos, 0) {
            None => None,
            Some((_, next)) => questions_end(buf, next + 4, (n - 1) as nat),
        }
    }
}

/// The type and data of `n` answers from `pos` on. The data of a pointer
/// record is the name that it holds.
pub open spec fn answers_at(buf: Seq<u8>, pos: int, n: nat) -> Option<Seq<(u16, Seq<u8>)>>
    decreases n,
{
    if n == 0 {
        Some(Seq::empty())
    } else {
        match name_at(buf, pos, 0) {
            None => None,
            Some((_, at)) => if at + 10 > buf.len() {
                None
            } else {
                let rtype = value16(buf, at);
                let start = at + 10;
                let end = start + value16(buf, at + 8);
                let data = if rtype == 12 {
                    match name_at(buf, start, 0) {
                        Some((labels, _)) => Some(encode_utf8(join(labels, '.'))),
                        None => None,
                    }
                } else if end <= buf.len() {
                    Some(buf.subrange(start, end))
                } else {
                    None
                };
                match (data, answers_at(buf, end, (n - 1) as nat)) {
                    (Some(d), Some(rest)) => Some(seq![(rtype, d)] + rest),
                    _ => None,
                }
            },
        }
    }
}

/// The answers of a response with the given identifier. A response that
/// reports an error, or is none, has no answers.
pub open spec fn answers_in(buf: Seq<u8>, id: u16) -> Option<Seq<(u16, Seq<u8>)>> {
    if buf.len() < 12 || value16(buf, 0) != id {
        None
    } else if buf[2] < 128 || buf[3] % 16 != 0 {
        Some(Seq::empty())
    } else {
        match questions_end(buf, 12, value16(buf, 4) as nat) {
            None => None,
            Some(pos) => answers_at(buf, pos, value16(buf, 6) as nat),
        }
    }
}

/// Answers as plain values.
pub open spec fn answers_view(answers: Seq<(u16, Vec<u8>)>) -> Seq<(u16, Seq<u8>)> {
    Seq::new(answers.len(), |i: int| (answers[i].0, answers[i].1@))
}

/// Whether `pos` stands for `p`: both behind the buffer, or the same.
spec fn stands_for(pos: usize, p: int, len: nat) -> bool {
    pos == p || (pos >= len && p >= len)
}

/// Reads the answers of a response.
pub fn parse_response(buf: &[u8], expected_id: u16) -> (r: Option<Vec<(u16, Vec<u8>)>>)
    ensures
        match r {
            Some(answers) => answers_in(buf@, expected_id) == Some(answers_view(answers@)),
            None => answers_in(buf@, expected_id) is None,
        },
{
    let len: usize = buf.len();
    if len < 12 {
        return None;
    }
    let id: u16 = read_be16(buf, 0);
    if id != expected_id {
        return None;
    }
    if buf[2] < 128 || buf[3] % 16 != 0 {
        let none: Vec<(u16, Vec<u8>)> = Vec::new();
        assert(answers_view(none@) =~= Seq::empty());
        return Some(none);
    }
    let qdcount: u16 = read_be16(buf, 4);
    let ancount: u16 = read_be16(buf, 6);
    let mut pos: usize = 12;
    let ghost mut p: int = 12;
    let mut i: u16 = 0;
    while i < qdcount
        invariant
            len == buf@.len(),
            i <= qdcount,
            stands_for(pos, p, buf@.len()),
            questions_end(buf@, 12, qdcount as nat) == questions_end(
                buf@,
                p,
                (qdcount - i) as nat,
            ),
            len >= 12,
            value16(buf@, 0) == expected_id,
            !(buf@[2] < 128 || buf@[3] % 16 != 0),
            qdcount == value16(buf@, 4),
        decreases qdcount - i,
    {
        match read_name(buf, pos) {
            Some((_, next)) => {
                proof {
                    p = next + 4;
                }
                pos = next.saturating_add(4);
            },
            None => {
                return None;
            },
        }
        i = i + 1;
    }
    let mut answers: Vec<(u16, Vec<u8>)> = Vec::new();
    let ghost begin = p;
    let ghost whole = answers_at(buf@, begin, ancount as nat);
    proof {
        if let Some(rest) = whole {
            assert(answers_view(answers@) + rest =~= rest);
        }
    }
    let mut j: u16 = 0;
    while j < ancount
        invariant
            len == buf@.len(),
            j <= ancount,
            stands_for(pos, p, buf@.len()),
            answers_in(buf@, expected_id) == whole,
            match answers_at(buf@, p, (ancount - j) as nat) {
                None => whole is None,
                Some(rest) => whole == Some(answers_view(answers@) + rest),
            },
        decreases ancount - j,
    {
        let at: usize = match read_name(buf, pos) {
            Some((_, next)) => next,
            None => {
                return None;
            },
        };
        if len - at < 10 {
            return None;
        }
        let rtype: u16 = read_be16(buf, at);
        let rdlength: u16 = read_be16(buf, at + 8);
        let start: usize = at + 10;
        let data: Vec<u8> = if rtype == TYPE_PTR {
            match read_name(buf, start) {
                Some((name, _)) => {
                    let mut bytes: Vec<u8> = Vec::new();
                    push_bytes(&mut bytes, name.as_str().as_bytes());
                    assert(bytes@ =~= encode_utf8(name@));
                    bytes
                },
                None => {
                    return None;
                },
            }
        } else {
            if (rdlength as usize) > len - start {
                return None;
            }
            bytes_between(buf, start, start + rdlength as usize)
        };
        let ghost before = answers_view(answers@);
        let ghost entry = (rtype, data@);
        answers.push((rtype, data));
        proof {
            assert(answers_view(answers@) =~= before.push(entry));
            if let Some(rest) = answers_at(buf@, start + rdlength, (ancount - j - 1) as nat) {
                assert(before + (seq![entry] + rest) =~= before.push(entry) + rest);
            }
            p = start + rdlength;
        }
        pos = start.saturating_add(rdlength as usize);
        j = j + 1;
    }
    assert(answers_view(answers@) + Seq::<(u16, Seq<u8>)>::empty() =~= answers_view(answers@));
    Some(answers)
}

// ---------------------------------------------------------------------
// What the answers say
// ---------------------------------------------------------------------

/// The names among the answers to a reverse query.
pub open spec fn names_among(answers: Seq<(u16, Seq<u8>)>) -> Seq<Seq<char>>
    decreases answers.len(),
{
    if answers.len() == 0 {
        Seq::empty()
    } else {
        let front = names_among(answers.drop_last());
        let (rtype, data) = answers.last();
        if rtype == 12 && valid_utf8(data) {
            front.push(decode_utf8(data))
        } else {
            front
        }
    }
}

/// The addresses among the answers to a query for `qtype`: the data of the
/// answers of that type with `width` bytes.
pub open spec fn addresses_among(
    answers: Seq<(u16, Seq<u8>)>,
    qtype: u16,
    width: nat,
) -> Seq<Seq<u8>>
    decreases answers.len(),
{
    if answers.len() == 0 {
        Seq::empty()
    } else {
        let front = addresses_among(answers.drop_last(), qtype, width);
        let (rtype, data) = answers.last();
        if rtype == qtype && data.len() == width {
            front.push(data)
        } else {
            front
        }
    }
}

/// The octets of each address.
pub open spec fn all_octets(ips: Seq<IpAddr>) -> Seq<Seq<u8>> {
    Seq::new(ips.len(), |i: int| octets_of(ips[i]))
}

/// Whether one of `names` is `claimed`, as host names are compared.
pub open spec fn claim_listed(names: Seq<Seq<char>>, claimed: Seq<char>) -> bool {
    exists|i: int| 0 <= i < names.len() && normal(#[trigger] names[i]) == normal(claimed)
}

/// Whether `ip` is one of `ips`.
pub open spec fn address_listed(ips: Seq<Seq<u8>>, ip: IpAddr) -> bool {
    exists|i: int| 0 <= i < ips.len() && #[trigger] ips[i] == octets_of(ip)
}

/// Picks the names out of the answers to a reverse query.
pub fn reverse_names(answers: &Vec<(u16, Vec<u8>)>) -> (r: Vec<String>)
    ensures
        texts(r@) == names_among(answers_view(answers@)),
{
    let ghost all = answers_view(answers@);
    let mut out: Vec<String> = Vec::new();
    let mut i: usize = 0;
    assert(texts(out@) =~= names_among(all.take(0)));
    while i < answers.len()
        invariant
            all == answers_view(answers@),
            i <= answers@.len(),
            texts(out@) == names_among(all.take(i as int)),
        decreases answers.len() - i,
    {
        assert(all.take(i + 1).drop_last() =~= all.take(i as int));
        let ghost before = texts(out@);
        if answers[i].0 == TYPE_PTR {
            let data = bytes_between(answers[i].1.as_slice(), 0, answers[i].1.len());
            assert(data@ =~= answers@[i as int].1@);
            match utf8_text(data) {
                Some(name) => {
                    let ghost text = name@;
                    out.push(name);
                    assert(texts(out@) =~= before.push(text));
                },
                None => {},
            }
        }
        i = i + 1;
    }
    assert(all.take(i as int) =~= all);
    out
}

fn parse_a(data: &Vec<u8>) -> (r: Option<IpAddr>)
    ensures
        match r {
            Some(ip) => data@.len() == 4 && octets_of(ip) == data@,
            None => data@.len() != 4,
        },
{
    if data.len() == 4 {
        let octets: [u8; 4] = [data[0], data[1], data[2], data[3]];
        assert(octets@ =~= data@);
        Some(IpAddr::V4(octets))
    } else {
        None
    }
}

fn parse_aaaa(data: &Vec<u8>) -> (r: Option<IpAddr>)
    ensures
        match r {
            Some(ip) => data@.len() == 16 && octets_of(ip) == data@,
            None => data@.len() != 16,
        },
{
    if data.len() == 16 {
        Some(IpAddr::V6(crate::bytes::sixteen(data)))
    } else {
        None
    }
}

/// Appends the addresses among the answers to a query for `qtype`, which is
/// the type of one version's addresses or the other's.
fn push_addresses(ips: &mut Vec<IpAddr>, answers: &Vec<(u16, Vec<u8>)>, qtype: u16)
    requires
        qtype == 1 || qtype == 28,
    ensures
        all_octets(final(ips)@) == all_octets(old(ips)@) + addresses_among(
            answers_view(answers@),
            qtype,
            if qtype == 1 {
                4
            } else {
                16
            },
        ),
{
    let ghost all = answers_view(answers@);
    let ghost width: nat = if qtype == 1 {
        4
    } else {
        16
    };
    let ghost start = all_octets(ips@);
    let mut i: usize = 0;
    assert(all_octets(ips@) =~= start + addresses_among(all.take(0), qtype, width));
    while i < answers.len()
        invariant
            qtype == 1 || qtype == 28,
            width == (if qtype == 1 {
                4nat
            } else {
                16nat
            }),
            all == answers_view(answers@),
            i <= answers@.len(),
            all_octets(ips@) == start + addresses_among(all.take(i as int), qtype, width),
        decreases answers.len() - i,
    {
        assert(all.take(i + 1).drop_last() =~= all.take(i as int));
        let ghost before = all_octets(ips@);
        if answers[i].0 == qtype {
            let parsed = if qtype == TYPE_A {
                parse_a(&answers[i].1)
            } else {
                parse_aaaa(&answers[i].1)
            };
            match parsed {
                Some(ip) => {
                    ips.push(ip);
                    assert(all_octets(ips@) =~= before.push(octets_of(ip)));
                },
                None => {},
            }
        }
        assert(all_octets(ips@) =~= start + addresses_among(all.take(i + 1), qtype, width));
        i = i + 1;
    }
    assert(all.take(i as int) =~= all);
}

/// The addresses of a host: those among the answers for version 4, then
/// those for version 6. A lookup that failed adds none.
pub fn forward_addresses(
    a: &Option<Vec<(u16, Vec<u8>)>>,
    aaaa: &Option<Vec<(u16, Vec<u8>)>>,
) -> (r: Vec<IpAddr>)
    ensures
        all_octets(r@) == (match a {
            Some(answers) => addresses_among(answers_view(answers@), 1, 4),
            None => Seq::empty(),
        }) + (match aaaa {
            Some(answers) => addresses_among(answers_view(answers@), 28, 16),
            None => Seq::empty(),
        }),
        a matches Some(answers) ==> forall|i: int|
            #![trigger answers@[i]]
            0 <= i < answers@.len() && answers@[i].0 == 1 && answers@[i].1@.len() == 4
                ==> all_octets(r@).contains(answers@[i].1@),
        aaaa matches Some(answers) ==> forall|i: int|
            #![trigger answers@[i]]
            0 <= i < answers@.len() && answers@[i].0 == 28 && answers@[i].1@.len() == 16
                ==> all_octets(r@).contains(answers@[i].1@),
{
    let mut ips: Vec<IpAddr> = Vec::new();
    assert(all_octets(ips@) =~= Seq::empty());
    match a {
        Some(answers) => {
            push_addresses(&mut ips, answers, TYPE_A);
        },
        None => {},
    }
    let ghost first = all_octets(ips@);
    assert(first =~= (match a {
        Some(answers) => addresses_among(answers_view(answers@), 1, 4),
        None => Seq::empty(),
    }));
    match aaaa {
        Some(answers) => {
            push_addresses(&mut ips, answers, TYPE_AAAA);
        },
        None => {},
    }
    let ghost second: Seq<Seq<u8>> = match aaaa {
        Some(answers) => addresses_among(answers_view(answers@), 28, 16),
        None => Seq::empty(),
    };
    assert(all_octets(ips@) =~= first + second);
    proof {
        let all = all_octets(ips@);
        if let Some(answers) = a {
            assert forall|i: int|
                #![trigger answers@[i]]
                0 <= i < answers@.len() && answers@[i].0 == 1 && answers@[i].1@.len() == 4 implies
                all.contains(answers@[i].1@) by {
                let seen = answers_view(answers@);
                assert(seen[i] == (1u16, answers@[i].1@));
                law_addresses_are_answers(seen, 1, 4, answers@[i].1@);
                let k = choose|k: int| 0 <= k < first.len() && first[k] == answers@[i].1@;
                assert(all[k] == answers@[i].1@);
            }
        }
        if let Some(answers) = aaaa {
            assert forall|i: int|
                #![trigger answers@[i]]
                0 <= i < answers@.len() && answers@[i].0 == 28 && answers@[i].1@.len()
                    == 16 implies all.contains(answers@[i].1@) by {
                let seen = answers_view(answers@);
                assert(seen[i] == (28u16, answers@[i].1@));
                law_addresses_are_answers(seen, 28, 16, answers@[i].1@);
                let k = choose|k: int| 0 <= k < second.len() && second[k] == answers@[i].1@;
                assert(all[first.len() + k] == answers@[i].1@);
            }
        }
    }
    ips
}

fn same_bytes(a: &[u8], b: &[u8]) -> (r: bool)
    ensures
        r == (a@ == b@),
{
    if a.len() != b.len() {
        return false;
    }
    let mut i: usize = 0;
    while i < a.len()
        invariant
            i <= a@.len() == b@.len(),
            a@.take(i as int) == b@.take(i as int),
        decreases a.len() - i,
    {
        if a[i] != b[i] {
            assert(a@[i as int] != b@[i as int]);
            return false;
        }
        assert(a@.take(i + 1) =~= a@.take(i as int).push(a@[i as int]));
        assert(b@.take(i + 1) =~= b@.take(i as int).push(b@[i as int]));
        i = i + 1;
    }
    assert(a@.take(i as int) =~= a@);
    assert(b@.take(i as int) =~= b@);
    true
}

/// Whether two addresses are the same.
pub fn same_address(a: &IpAddr, b: &IpAddr) -> (r: bool)
    ensures
        r == (octets_of(*a) == octets_of(*b)),
{
    match (a, b) {
        (IpAddr::V4(x), IpAddr::V4(y)) => same_bytes(x.as_slice(), y.as_slice()),
        (IpAddr::V6(x), IpAddr::V6(y)) => same_bytes(x.as_slice(), y.as_slice()),
        _ => {
            assert(octets_of(*a).len() != octets_of(*b).len());
            false
        },
    }
}

fn lists_claim(names: &Vec<String>, claimed: &str) -> (r: bool)
    ensures
        r == claim_listed(texts(names@), claimed@),
{
    let wanted = normalize(claimed);
    let mut i: usize = 0;
    while i < names.len()
        invariant
            wanted@ == normal(claimed@),
            i <= names@.len(),
            forall|j: int| 0 <= j < i ==> normal(#[trigger] texts(names@)[j]) != normal(claimed@),
        decreases names.len() - i,
    {
        let name = normalize(names[i].as_str());
        assert(texts(names@)[i as int] == names@[i as int]@);
        if name == wanted {
            return true;
        }
        i = i + 1;
    }
    false
}

fn lists_address(ips: &Vec<IpAddr>, ip: &IpAddr) -> (r: bool)
    ensures
        r == address_listed(all_octets(ips@), *ip),
{
    let mut i: usize = 0;
    while i < ips.len()
        invariant
            i <= ips@.len(),
            forall|j: int| 0 <= j < i ==> #[trigger] all_octets(ips@)[j] != octets_of(*ip),
        decreases ips.len() - i,
    {
        assert(all_octets(ips@)[i as int] == octets_of(ips@[i as int]));
        if same_address(&ips[i], ip) {
            return true;
        }
        i = i + 1;
    }
    false
}

/// The whole check: the claimed name is among the names of the address, and
/// the address is among the addresses of the name. A lookup that failed
/// confirms nothing.
pub fn is_forward_confirmed(
    source_ip: IpAddr,
    claimed_rdns: &str,
    ptr_names: &Option<Vec<String>>,
    forward_ips: &Option<Vec<IpAddr>>,
) -> (r: bool)
    ensures
        r == (ptr_names is Some && forward_ips is Some && claim_listed(
            texts(ptr_names->0@),
            claimed_rdns@,
        ) && address_listed(all_octets(forward_ips->0@), source_ip)),
{
    match (ptr_names, forward_ips) {
        (Some(names), Some(ips)) => lists_claim(names, claimed_rdns) && lists_address(
            ips,
            &source_ip,
        ),
        _ => false,
    }
}

// ---------------------------------------------------------------------
// One query, resolver by resolver
// ---------------------------------------------------------------------

/// A query on its way: what is asked, and which resolver is asked now.
#[derive(Debug)]
pub struct Query {
    pub id: u16,
    pub name: String,
    pub qtype: u16,
    pub resolver: usize,
}

/// How a query stands.
#[derive(Debug)]
pub enum QueryProgress {
    /// The resolver with the query's index has to be asked.
    Ask(Query),
    /// A resolver gave these answers.
    Answered(Vec<(u16, Vec<u8>)>),
    /// No resolver gave an answer.
    Failed,
}

/// A reply as plain bytes.
pub open spec fn reply_bytes(reply: Option<Vec<u8>>) -> Option<Seq<u8>> {
    match reply {
        Some(bytes) => Some(bytes@),
        None => None,
    }
}

/// What a resolver's reply is worth: its answers, or nothing where it did
/// not come or was no response to the query.
pub open spec fn reply_answers(id: u16, reply: Option<Seq<u8>>) -> Option<Seq<(u16, Seq<u8>)>> {
    match reply {
        Some(bytes) => answers_in(bytes, id),
        None => None,
    }
}

impl Query {
    /// Whether `progress` asks the resolver `resolver` for `name`, or is a
    /// failure where there is no such resolver.
    pub open spec fn asks(
        progress: QueryProgress,
        id: u16,
        name: Seq<char>,
        qtype: u16,
        resolver: int,
        resolvers: usize,
    ) -> bool {
        match progress {
            QueryProgress::Ask(q) => q.id == id && q.name@ == name && q.qtype == qtype
                && q.resolver == resolver && resolver < resolvers,
            QueryProgress::Answered(_) => false,
            QueryProgress::Failed => resolver >= resolvers,
        }
    }

    /// Starts a query with the first of `resolvers` resolvers.
    pub fn begin(id: u16, name: String, qtype: u16, resolvers: usize) -> (r: QueryProgress)
        ensures
            Query::asks(r, id, name@, qtype, 0, resolvers),
    {
        if resolvers == 0 {
            QueryProgress::Failed
        } else {
            QueryProgress::Ask(Query { id, name, qtype, resolver: 0 })
        }
    }

    /// The message to send to the resolver.
    pub fn request(&self) -> (r: Vec<u8>)
        ensures
            r@ == query_bytes(self.id, self.name@, self.qtype),
    {
        encode_query(self.id, self.name.as_str(), self.qtype)
    }

    /// Takes the reply of the resolver that was asked, or `None` where none
    /// came. Without an answer the next resolver has its turn.
    pub fn reply(self, reply: &Option<Vec<u8>>, resolvers: usize) -> (r: QueryProgress)
        ensures
            match reply_answers(
                self.id,
                reply_bytes(*reply),
            ) {
                Some(answers) => r matches QueryProgress::Answered(a) && answers_view(a@)
                    == answers,
                None => Query::asks(
                    r,
                    self.id,
                    self.name@,
                    self.qtype,
                    self.resolver + 1,
                    resolvers,
                ),
            },
    {
        if let Some(bytes) = reply {
            if let Some(answers) = parse_response(bytes.as_slice(), self.id) {
                return QueryProgress::Answered(answers);
            }
        }
        if self.resolver < resolvers && self.resolver + 1 < resolvers {
            QueryProgress::Ask(
                Query {
                    id: self.id,
                    name: self.name,
                    qtype: self.qtype,
                    resolver: self.resolver + 1,
                },
            )
        } else {
            QueryProgress::Failed
        }
    }
}

// ---------------------------------------------------------------------
// The check, reply by reply
// ---------------------------------------------------------------------

/// Where a check stands.
#[derive(Debug)]
pub enum Stage {
    /// The names of the address are being asked for.
    Reverse(Query),
    /// The version 4 addresses of the claimed name are being asked for.
    ForwardA(Query),
    /// The version 6 addresses of the claimed name are being asked for.
    ForwardAaaa(Query),
    /// The check is over, with this outcome.
    Done(bool),
}

/// A check on its way, with the evidence gathered so far.
#[derive(Debug)]
pub struct Confirmation {
    pub source_ip: IpAddr,
    pub claimed: String,
    /// How many resolvers there are.
    pub resolvers: usize,
    /// The names that the address points to.
    pub names: Vec<String>,
    /// The addresses that the claimed name points to.
    pub ips: Vec<IpAddr>,
    pub stage: Stage,
}

/// Any identifier: `rand::random` gives a random number, of which nothing
/// is said.
#[verifier::external_body]
pub(crate) fn random_id() -> (r: u16) {
    rand::random::<u16>()
}

/// Whether the random number generator may give this identifier.
pub closed spec fn drawn_id(id: u16) -> bool {
    call_ensures(random_id, (), id)
}

/// A check without its evidence.
pub struct Claim {
    pub source_ip: IpAddr,
    pub claimed: Seq<char>,
    pub resolvers: usize,
}

impl Confirmation {
    /// What is being checked.
    pub open spec fn claim(self) -> Claim {
        Claim { source_ip: self.source_ip, claimed: self.claimed@, resolvers: self.resolvers }
    }

    /// What holds at each stage: the query asks what belongs to it, and one
    /// of the resolvers; the addresses are only asked for behind a name that
    /// the claim matches; and the outcome is positive exactly where both
    /// directions agree.
    pub open spec fn wf(self) -> bool {
        match self.stage {
            Stage::Reverse(q) => self.names@.len() == 0 && self.ips@.len() == 0 && q.name@
                == reverse_name(self.source_ip) && q.qtype == 12 && q.resolver < self.resolvers,
            Stage::ForwardA(q) => claim_listed(texts(self.names@), self.claimed@)
                && self.ips@.len() == 0 && q.name@ == self.claimed@ && q.qtype == 1 && q.resolver
                < self.resolvers,
            Stage::ForwardAaaa(q) => claim_listed(texts(self.names@), self.claimed@) && q.name@
                == self.claimed@ && q.qtype == 28 && q.resolver < self.resolvers,
            Stage::Done(outcome) => outcome == (claim_listed(texts(self.names@), self.claimed@)
                && address_listed(all_octets(self.ips@), self.source_ip)),
        }
    }

    /// Whether the check asks the resolver `resolver` for the names of the
    /// address, or has failed for want of one.
    pub open spec fn asks_reverse(self, id: u16, resolver: int) -> bool {
        &&& self.names@.len() == 0
        &&& self.ips@.len() == 0
        &&& if resolver < self.resolvers {
            self.stage matches Stage::Reverse(q) && q.id == id && q.name@ == reverse_name(
                self.source_ip,
            ) && q.qtype == 12 && q.resolver == resolver
        } else {
            self.stage == Stage::Done(false)
        }
    }

    /// Whether the check asks the resolver `resolver` for the version 6
    /// addresses, or is over for want of one.
    pub open spec fn asks_forward6(self, id: u16, resolver: int) -> bool {
        if resolver < self.resolvers {
            self.stage matches Stage::ForwardAaaa(q) && q.id == id && q.name@ == self.claimed@
                && q.qtype == 28 && q.resolver == resolver
        } else {
            self.stage == Stage::Done(address_listed(all_octets(self.ips@), self.source_ip))
        }
    }

    /// Whether the check asks the resolver `resolver` for the version 4
    /// addresses, or for want of one goes on to version 6.
    pub open spec fn asks_forward4(self, id: u16, resolver: int, next_id: u16) -> bool {
        if resolver < self.resolvers {
            self.stage matches Stage::ForwardA(q) && q.id == id && q.name@ == self.claimed@
                && q.qtype == 1 && q.resolver == resolver
        } else {
            self.asks_forward6(next_id, 0)
        }
    }

    /// Whether `self` is what `before` becomes with a reply that is worth
    /// `answers`. The two identifiers are for queries that start now.
    pub open spec fn follows(
        self,
        before: Confirmation,
        answers: Option<Seq<(u16, Seq<u8>)>>,
        id: u16,
        next_id: u16,
    ) -> bool {
        &&& self.claim() == before.claim()
        &&& match before.stage {
            Stage::Reverse(q) => match answers {
                None => self.asks_reverse(q.id, q.resolver + 1),
                Some(a) => {
                    &&& texts(self.names@) == names_among(a)
                    &&& self.ips@.len() == 0
                    &&& if claim_listed(names_among(a), before.claimed@) {
                        self.asks_forward4(id, 0, next_id)
                    } else {
                        self.stage == Stage::Done(false)
                    }
                },
            },
            Stage::ForwardA(q) => self.names@ == before.names@ && match answers {
                None => self.ips@ == before.ips@ && self.asks_forward4(
                    q.id,
                    q.resolver + 1,
                    next_id,
                ),
                Some(a) => all_octets(self.ips@) == all_octets(before.ips@) + addresses_among(
                    a,
                    1,
                    4,
                ) && self.asks_forward6(next_id, 0),
            },
            Stage::ForwardAaaa(q) => self.names@ == before.names@ && match answers {
                None => self.ips@ == before.ips@ && self.asks_forward6(q.id, q.resolver + 1),
                Some(a) => all_octets(self.ips@) == all_octets(before.ips@) + addresses_among(
                    a,
                    28,
                    16,
                ) && self.stage == Stage::Done(
                    address_listed(all_octets(self.ips@), self.source_ip),
                ),
            },
            Stage::Done(_) => self == before,
        }
    }

    /// What the reply is worth to the query on its way.
    pub open spec fn worth(self, reply: Option<Seq<u8>>) -> Option<Seq<(u16, Seq<u8>)>> {
        match self.stage {
            Stage::Reverse(q) => reply_answers(q.id, reply),
            Stage::ForwardA(q) => reply_answers(q.id, reply),
            Stage::ForwardAaaa(q) => reply_answers(q.id, reply),
            Stage::Done(_) => None,
        }
    }

    /// Starts a check. The query for the names has the identifier `id`.
    pub fn begin_with(source_ip: IpAddr, claimed_rdns: &str, resolvers: usize, id: u16) -> (r: Self)
        ensures
            r.wf(),
            r.claim() == (Claim { source_ip, claimed: claimed_rdns@, resolvers }),
            r.asks_reverse(id, 0),
    {
        let progress = Query::begin(id, ptr_query_name(source_ip), TYPE_PTR, resolvers);
        let stage = match progress {
            QueryProgress::Ask(query) => Stage::Reverse(query),
            _ => Stage::Done(false),
        };
        Confirmation {
            source_ip,
            claimed: claimed_rdns.to_owned(),
            resolvers,
            names: Vec::new(),
            ips: Vec::new(),
            stage,
        }
    }

    /// Takes the reply of the resolver that was asked, or `None` where none
    /// came. A query that starts now gets the first identifier, and one
    /// that starts behind it the second.
    pub fn reply_with(self, reply: &Option<Vec<u8>>, id: u16, next_id: u16) -> (r: Self)
        requires
            self.wf(),
        ensures
            r.wf(),
            r.follows(
                self,
                self.worth(
                    reply_bytes(*reply),
                ),
                id,
                next_id,
            ),
    {
        let resolvers: usize = self.resolvers;
        match self.stage {
            Stage::Reverse(query) => match query.reply(reply, resolvers) {
                QueryProgress::Ask(query) => Confirmation { stage: Stage::Reverse(query), ..self },
                QueryProgress::Failed => Confirmation { stage: Stage::Done(false), ..self },
                QueryProgress::Answered(answers) => {
                    let names = reverse_names(&answers);
                    if lists_claim(&names, self.claimed.as_str()) {
                        let ips: Vec<IpAddr> = Vec::new();
                        let progress = Query::begin(id, self.claimed.clone(), TYPE_A, resolvers);
                        let stage = Self::forward_stage(
                            progress,
                            self.claimed.as_str(),
                            resolvers,
                            next_id,
                            &ips,
                            &self.source_ip,
                        );
                        Confirmation { names, ips, stage, ..self }
                    } else {
                        Confirmation { names, stage: Stage::Done(false), ..self }
                    }
                },
            },
            Stage::ForwardA(query) => match query.reply(reply, resolvers) {
                QueryProgress::Answered(answers) => {
                    let mut ips = self.ips;
                    push_addresses(&mut ips, &answers, TYPE_A);
                    let stage = Self::forward6_stage(
                        Query::begin(next_id, self.claimed.clone(), TYPE_AAAA, resolvers),
                        &ips,
                        &self.source_ip,
                    );
                    Confirmation {
                        source_ip: self.source_ip,
                        claimed: self.claimed,
                        resolvers,
                        names: self.names,
                        ips,
                        stage,
                    }
                },
                progress => {
                    let stage = Self::forward_stage(
                        progress,
                        self.claimed.as_str(),
                        resolvers,
                        next_id,
                        &self.ips,
                        &self.source_ip,
                    );
                    Confirmation { stage, ..self }
                },
            },
            Stage::ForwardAaaa(query) => match query.reply(reply, resolvers) {
                QueryProgress::Answered(answers) => {
                    let mut ips = self.ips;
                    push_addresses(&mut ips, &answers, TYPE_AAAA);
                    let stage = Stage::Done(lists_address(&ips, &self.source_ip));
                    Confirmation {
                        source_ip: self.source_ip,
                        claimed: self.claimed,
                        resolvers,
                        names: self.names,
                        ips,
                        stage,
                    }
                },
                progress => {
                    let stage = Self::forward6_stage(progress, &self.ips, &self.source_ip);
                    Confirmation { stage, ..self }
                },
            },
            Stage::Done(_) => self,
        }
    }

    /// The stage of a version 6 query that has no answers yet.
    fn forward6_stage(progress: QueryProgress, ips: &Vec<IpAddr>, source_ip: &IpAddr) -> (r: Stage)
        requires
            !(progress is Answered),
        ensures
            match progress {
                QueryProgress::Ask(q) => r == Stage::ForwardAaaa(q),
                _ => r == Stage::Done(address_listed(all_octets(ips@), *source_ip)),
            },
    {
        match progress {
            QueryProgress::Ask(query) => Stage::ForwardAaaa(query),
            _ => Stage::Done(lists_address(ips, source_ip)),
        }
    }

    /// The stage of a version 4 query that has no answers yet.
    fn forward_stage(
        progress: QueryProgress,
        claimed: &str,
        resolvers: usize,
        next_id: u16,
        ips: &Vec<IpAddr>,
        source_ip: &IpAddr,
    ) -> (r: Stage)
        requires
            !(progress is Answered),
        ensures
            match progress {
                QueryProgress::Ask(q) => r == Stage::ForwardA(q),
                _ => if 0 < resolvers {
                    r matches Stage::ForwardAaaa(q) && q.id == next_id && q.name@ == claimed@
                        && q.qtype == 28 && q.resolver == 0
                } else {
                    r == Stage::Done(address_listed(all_octets(ips@), *source_ip))
                },
            },
    {
        match progress {
            QueryProgress::Ask(query) => Stage::ForwardA(query),
            _ => {
                let next = Query::begin(next_id, claimed.to_owned(), TYPE_AAAA, resolvers);
                Self::forward6_stage(next, ips, source_ip)
            },
        }
    }

    /// Takes the reply of the resolver that was asked, or `None` where none
    /// came, with fresh identifiers for what is asked next.
    pub fn reply(self, reply: &Option<Vec<u8>>) -> (r: Self)
        requires
            self.wf(),
        ensures
            r.wf(),
            exists|id: u16, next_id: u16|
                drawn_id(id) && drawn_id(next_id) && #[trigger] r.follows(
                    self,
                    self.worth(
                        reply_bytes(*reply),
                    ),
                    id,
                    next_id,
                ),
    {
        let id: u16 = random_id();
        let next_id: u16 = random_id();
        self.reply_with(reply, id, next_id)
    }
}

impl FcrdnsVerifier {
    /// Starts to check whether `source_ip` forward-confirms `claimed_rdns`
    /// with the help of so many resolvers.
    pub fn begin(&self, source_ip: IpAddr, claimed_rdns: &str, resolvers: usize) -> (r: Confirmation)
        ensures
            r.wf(),
            r.claim() == (Claim { source_ip, claimed: claimed_rdns@, resolvers }),
            exists|id: u16| drawn_id(id) && #[trigger] r.asks_reverse(id, 0),
    {
        let id: u16 = random_id();
        Confirmation::begin_with(source_ip, claimed_rdns, resolvers, id)
    }
}

// ---------------------------------------------------------------------
// Laws
// ---------------------------------------------------------------------

/// A check only ends well where both directions agree: the claimed name is
/// among the names found, and the address among the addresses found.
pub proof fn law_confirmed_both_ways(c: Confirmation)
    requires
        c.wf(),
        c.stage == Stage::Done(true),
    ensures
        claim_listed(texts(c.names@), c.claimed@),
        address_listed(all_octets(c.ips@), c.source_ip),
{
}

/// A finished check stays as it is, whatever comes in.
pub proof fn law_outcome_final(
    before: Confirmation,
    after: Confirmation,
    answers: Option<Seq<(u16, Seq<u8>)>>,
    id: u16,
    next_id: u16,
)
    requires
        before.stage is Done,
        after.follows(before, answers, id, next_id),
    ensures
        after == before,
{
}

/// Without an answer to any of the reverse queries nothing is confirmed.
pub proof fn law_no_names_no_confirmation(
    before: Confirmation,
    after: Confirmation,
    id: u16,
    next_id: u16,
)
    requires
        before.stage is Reverse,
        after.follows(before, None, id, next_id),
    ensures
        after.stage is Reverse || after.stage == Stage::Done(false),
{
}

impl Confirmation {
    /// How many replies there are at most until the check is over.
    pub open spec fn replies_left(self) -> int {
        match self.stage {
            Stage::Reverse(q) => 3 * self.resolvers - q.resolver,
            Stage::ForwardA(q) => 2 * self.resolvers - q.resolver,
            Stage::ForwardAaaa(q) => self.resolvers - q.resolver,
            Stage::Done(_) => 0,
        }
    }
}

/// A check ends: with every reply, good or bad or missing, fewer are left to
/// come.
pub proof fn law_check_ends(
    before: Confirmation,
    after: Confirmation,
    answers: Option<Seq<(u16, Seq<u8>)>>,
    id: u16,
    next_id: u16,
)
    requires
        before.wf(),
        after.wf(),
        !(before.stage is Done),
        after.follows(before, answers, id, next_id),
    ensures
        0 <= after.replies_left() < before.replies_left() <= 3 * before.resolvers,
{
}

/// The labels that are not empty, in order: those that a query asks for.
pub open spec fn filled_labels(labels: Seq<Seq<char>>) -> Seq<Seq<char>>
    decreases labels.len(),
{
    if labels.len() == 0 {
        Seq::empty()
    } else if labels[0].len() == 0 {
        filled_labels(labels.skip(1))
    } else {
        seq![labels[0]] + filled_labels(labels.skip(1))
    }
}

/// Where no label is empty all of them are asked for.
proof fn lemma_all_filled(labels: Seq<Seq<char>>)
    requires
        forall|i: int| 0 <= i < labels.len() ==> (#[trigger] labels[i]).len() > 0,
    ensures
        filled_labels(labels) == labels,
    decreases labels.len(),
{
    if labels.len() > 0 {
        let rest = labels.skip(1);
        assert forall|i: int| 0 <= i < rest.len() implies (#[trigger] rest[i]).len() > 0 by {
            assert(rest[i] == labels[i + 1]);
        }
        lemma_all_filled(rest);
        assert(seq![labels[0]] + rest =~= labels);
    }
}

/// The bytes of a text are read as that text.
proof fn lemma_label_text(s: Seq<char>)
    ensures
        label_text(encode_utf8(s)) == s,
{
    vstd::utf8::encode_utf8_valid_utf8(s);
    vstd::utf8::encode_utf8_decode_utf8(s);
}

/// The labels of a query, from the front.
proof fn lemma_query_labels_front(labels: Seq<Seq<char>>)
    requires
        labels.len() > 0,
    ensures
        query_labels(labels) == query_labels(seq![labels[0]]) + query_labels(labels.skip(1)),
    decreases labels.len(),
{
    let rest = labels.skip(1);
    let none: Seq<u8> = Seq::empty();
    if labels.len() == 1 {
        assert(labels =~= seq![labels[0]]);
        assert(rest =~= Seq::empty());
        assert(query_labels(rest) =~= none);
        assert(query_labels(labels) + none =~= query_labels(labels));
    } else {
        lemma_query_labels_front(labels.drop_last());
        assert(labels.drop_last().skip(1) =~= rest.drop_last());
        assert(query_labels(labels) =~= query_labels(seq![labels[0]]) + query_labels(rest));
    }
}

/// A name in the middle of a message is read from its first label to its
/// end.
proof fn lemma_labels_read(
    front: Seq<u8>,
    labels: Seq<Seq<char>>,
    back: Seq<u8>,
    jumps: int,
)
    requires
        0 <= jumps <= 32,
        forall|i: int| 0 <= i < labels.len() ==> encode_utf8(#[trigger] labels[i]).len() < 192,
    ensures
        name_at(front + query_labels(labels).push(0) + back, front.len() as int, jumps) == Some(
            (filled_labels(labels), front.len() as int + query_labels(labels).len() as int + 1),
        ),
    decreases labels.len(),
{
    let buf = front + query_labels(labels).push(0) + back;
    let pos = front.len() as int;
    if labels.len() == 0 {
        assert(buf[pos] == 0);
    } else {
        let label = labels[0];
        let bytes = encode_utf8(label);
        let rest = labels.skip(1);
        let one = query_labels(seq![label]);
        lemma_query_labels_front(labels);
        lemma_empty_bytes(label);
        assert(query_labels(seq![label].drop_last()) =~= Seq::empty());
        assert(one =~= if label.len() == 0 {
            Seq::empty()
        } else {
            seq![(bytes.len() % 256) as u8] + bytes
        });
        let next = front + one;
        assert(buf =~= next + query_labels(rest).push(0) + back);
        assert forall|i: int| 0 <= i < rest.len() implies encode_utf8(#[trigger] rest[i]).len()
            < 192 by {
            assert(rest[i] == labels[i + 1]);
        }
        lemma_labels_read(next, rest, back, jumps);
        if label.len() > 0 {
            lemma_label_text(label);
            assert(buf[pos] == bytes.len() as u8);
            assert(buf.subrange(pos + 1, pos + 1 + bytes.len()) =~= bytes);
            assert(next.len() == pos + 1 + bytes.len());
        } else {
            assert(next =~= front);
        }
    }
}

/// The name of a query is read out of it again: its labels, without the empty
/// ones. Where none is empty that is the name itself.
pub proof fn law_query_name_reads_back(id: u16, name: Seq<char>, qtype: u16)
    requires
        forall|i: int|
            0 <= i < split(name, '.').len() ==> encode_utf8(#[trigger] split(name, '.')[i]).len()
                < 192,
    ensures
        name_at(query_bytes(id, name, qtype), 12, 0) == Some(
            (filled_labels(split(name, '.')), query_bytes(id, name, qtype).len() - 4),
        ),
        (forall|i: int| 0 <= i < split(name, '.').len() ==> (#[trigger] split(name, '.')[i]).len() > 0)
            ==> join(filled_labels(split(name, '.')), '.') == name,
{
    let front = be16(id) + be16(0x0100) + be16(1) + seq![0u8, 0, 0, 0, 0, 0];
    let back = be16(qtype) + be16(1);
    let labels = split(name, '.');
    assert(query_bytes(id, name, qtype) =~= front + query_labels(labels).push(0) + back);
    assert(front.len() == 12);
    lemma_labels_read(front, labels, back, 0);
    if forall|i: int| 0 <= i < labels.len() ==> (#[trigger] labels[i]).len() > 0 {
        lemma_all_filled(labels);
        lemma_join_split(name, '.');
    }
}

/// A trailing dot does not change what is asked.
pub proof fn law_query_ignores_trailing_dot(id: u16, name: Seq<char>, qtype: u16)
    ensures
        query_bytes(id, name.push('.'), qtype) == query_bytes(id, name, qtype),
{
    let labels = split(name, '.');
    let none: Seq<char> = Seq::empty();
    lemma_split_append(name, none, '.');
    assert(name.push('.') + none =~= name.push('.'));
    assert(labels.push(none).drop_last() =~= labels);
    assert(query_labels(labels.push(none)) == query_labels(labels));
}

/// A pointer is read as the name that it points to, and the position behind
/// it is behind the pointer.
pub proof fn law_pointer_reads_name(front: Seq<u8>, name: Seq<char>, back: Seq<u8>, p: int)
    requires
        forall|i: int|
            0 <= i < split(name, '.').len() ==> 0 < encode_utf8(#[trigger] split(name, '.')[i]).len()
                < 192,
        front.len() < 0x4000,
        ({
            let buf = front + query_labels(split(name, '.')).push(0) + back;
            &&& 0 <= p < buf.len() - 1
            &&& buf[p] == 192 + front.len() / 256
            &&& buf[p + 1] == front.len() % 256
        }),
    ensures
        ({
            let buf = front + query_labels(split(name, '.')).push(0) + back;
            &&& name_at(buf, p, 0) matches Some((labels, next))
            &&& join(labels, '.') == name
            &&& next == p + 2
        }),
{
    let labels = split(name, '.');
    let buf = front + query_labels(labels).push(0) + back;
    lemma_labels_read(front, labels, back, 1);
    assert forall|i: int| 0 <= i < labels.len() implies (#[trigger] labels[i]).len() > 0 by {
        lemma_empty_bytes(labels[i]);
    }
    lemma_all_filled(labels);
    lemma_join_split(name, '.');
    assert((buf[p] - 192) * 256 + buf[p + 1] == front.len());
}

/// Host names are compared without regard to ASCII case and to a trailing
/// dot.
pub proof fn law_normal_ignores_trailing_dot(s: Seq<char>)
    ensures
        normal(s.push('.')) == normal(s),
        normal(lower(s)) == normal(s),
    decreases s.len(),
{
    assert(s.push('.').drop_last() =~= s);
    let l = lower(s);
    if s.len() > 0 {
        assert(l.drop_last() =~= lower(s.drop_last()));
        law_normal_ignores_trailing_dot(s.drop_last());
    }
    if !(s.len() > 0 && s.last() == '.') {
        assert(lower(l) =~= l);
    }
}

/// The addresses among answers are the data of every answer of the queried
/// type with the right width, and nothing else.
pub proof fn law_addresses_are_answers(
    answers: Seq<(u16, Seq<u8>)>,
    qtype: u16,
    width: nat,
    data: Seq<u8>,
)
    ensures
        addresses_among(answers, qtype, width).contains(data) <==> data.len() == width
            && answers.contains((qtype, data)),
    decreases answers.len(),
{
    let found = addresses_among(answers, qtype, width);
    if answers.len() > 0 {
        let front = answers.drop_last();
        let before = addresses_among(front, qtype, width);
        law_addresses_are_answers(front, qtype, width, data);
        let n = front.len() as int;
        assert(answers[n] == answers.last());
        if front.contains((qtype, data)) {
            let i = choose|i: int| 0 <= i < front.len() && front[i] == (qtype, data);
            assert(answers[i] == (qtype, data));
        }
        if answers.contains((qtype, data)) && answers.last() != (qtype, data) {
            let i = choose|i: int| 0 <= i < answers.len() && answers[i] == (qtype, data);
            assert(front[i] == (qtype, data));
        }
        if answers.last().0 == qtype && answers.last().1.len() == width {
            assert(found == before.push(answers.last().1));
            assert(found[before.len() as int] == answers.last().1);
            if before.contains(data) {
                let i = choose|i: int| 0 <= i < before.len() && before[i] == data;
                assert(found[i] == data);
            }
            if found.contains(data) && data != answers.last().1 {
                let i = choose|i: int| 0 <= i < found.len() && found[i] == data;
                assert(before[i] == data);
            }
        }
    }
}

/// The addresses come in the order of the answers, each as often as it was
/// answered.
pub proof fn law_addresses_in_order(
    a: Seq<(u16, Seq<u8>)>,
    b: Seq<(u16, Seq<u8>)>,
    answer: (u16, Seq<u8>),
    qtype: u16,
    width: nat,
)
    ensures
        addresses_among(a + b, qtype, width) == addresses_among(a, qtype, width)
            + addresses_among(b, qtype, width),
        addresses_among(seq![answer], qtype, width) == if answer.0 == qtype && answer.1.len()
            == width {
            seq![answer.1]
        } else {
            Seq::empty()
        },
    decreases b.len(),
{
    let all = a + b;
    let none: Seq<(u16, Seq<u8>)> = Seq::empty();
    assert(seq![answer].drop_last() =~= none);
    assert(addresses_among(none, qtype, width) =~= Seq::empty());
    assert(addresses_among(seq![answer], qtype, width) =~= if answer.0 == qtype && answer.1.len()
        == width {
        seq![answer.1]
    } else {
        Seq::empty()
    });
    if b.len() == 0 {
        assert(all =~= a);
        assert(addresses_among(a, qtype, width) + addresses_among(b, qtype, width)
            =~= addresses_among(a, qtype, width));
    } else {
        law_addresses_in_order(a, b.drop_last(), answer, qtype, width);
        assert(all.drop_last() =~= a + b.drop_last());
        assert(all.last() == b.last());
        assert(addresses_among(all, qtype, width) =~= addresses_among(a, qtype, width)
            + addresses_among(b, qtype, width));
    }
}

/// The names among answers are the texts of every pointer answer that is
/// UTF-8, in order, and nothing else.
pub proof fn law_names_in_order(
    a: Seq<(u16, Seq<u8>)>,
    b: Seq<(u16, Seq<u8>)>,
    answer: (u16, Seq<u8>),
)
    ensures
        names_among(a + b) == names_among(a) + names_among(b),
        names_among(seq![answer]) == if answer.0 == 12 && valid_utf8(answer.1) {
            seq![decode_utf8(answer.1)]
        } else {
            Seq::empty()
        },
    decreases b.len(),
{
    let all = a + b;
    let none: Seq<(u16, Seq<u8>)> = Seq::empty();
    assert(seq![answer].drop_last() =~= none);
    assert(names_among(none) =~= Seq::empty());
    assert(names_among(seq![answer]) =~= if answer.0 == 12 && valid_utf8(answer.1) {
        seq![decode_utf8(answer.1)]
    } else {
        Seq::empty()
    });
    if b.len() == 0 {
        assert(all =~= a);
        assert(names_among(a) + names_among(b) =~= names_among(a));
    } else {
        law_names_in_order(a, b.drop_last(), answer);
        assert(all.drop_last() =~= a + b.drop_last());
        assert(all.last() == b.last());
        assert(names_among(all) =~= names_among(a) + names_among(b));
    }
}

/// Every pointer answer that is UTF-8 is among the names, and every name is
/// that of such an answer.
pub proof fn law_names_are_answers(answers: Seq<(u16, Seq<u8>)>, name: Seq<char>)
    ensures
        names_among(answers).contains(name) <==> exists|i: int|
            #![trigger answers[i]]
            0 <= i < answers.len() && answers[i].0 == 12 && valid_utf8(answers[i].1)
                && decode_utf8(answers[i].1) == name,
    decreases answers.len(),
{
    let found = names_among(answers);
    if answers.len() > 0 {
        let front = answers.drop_last();
        let before = names_among(front);
        let last = answers.last();
        law_names_are_answers(front, name);
        assert(answers[front.len() as int] == last);
        if before.contains(name) {
            let i = choose|i: int|
                #![trigger front[i]]
                0 <= i < front.len() && front[i].0 == 12 && valid_utf8(front[i].1) && decode_utf8(
                    front[i].1,
                ) == name;
            assert(answers[i] == front[i]);
        }
        if exists|i: int|
            #![trigger answers[i]]
            0 <= i < answers.len() && answers[i].0 == 12 && valid_utf8(answers[i].1)
                && decode_utf8(answers[i].1) == name {
            let i = choose|i: int|
                #![trigger answers[i]]
                0 <= i < answers.len() && answers[i].0 == 12 && valid_utf8(answers[i].1)
                    && decode_utf8(answers[i].1) == name;
            if i < front.len() {
                assert(front[i] == answers[i]);
                assert(before.contains(name));
            }
        }
        if last.0 == 12 && valid_utf8(last.1) {
            assert(found == before.push(decode_utf8(last.1)));
            assert(found[before.len() as int] == decode_utf8(last.1));
            if before.contains(name) {
                let i = choose|i: int| 0 <= i < before.len() && before[i] == name;
                assert(found[i] == name);
            }
            if found.contains(name) && name != decode_utf8(last.1) {
                let i = choose|i: int| 0 <= i < found.len() && found[i] == name;
                assert(before[i] == name);
            }
        }
    }
}

/// Host names are compared by what stands before their trailing dots, in
/// lower case.
pub proof fn law_compared_without_dots(core: Seq<char>, dots: Seq<char>)
    requires
        forall|i: int| 0 <= i < dots.len() ==> #[trigger] dots[i] == '.',
        core.len() > 0 ==> core.last() != '.',
    ensures
        normal(core + dots) == lower(core),
{
    crate::text::law_run_trimmed(core, dots, '.');
}

/// A claim is listed where any of the names is the same host name, and an
/// address where any of the addresses is the same.
pub proof fn law_listed_by_any(
    names: Seq<Seq<char>>,
    claimed: Seq<char>,
    ips: Seq<Seq<u8>>,
    ip: IpAddr,
)
    ensures
        claim_listed(names, claimed) <==> exists|name: Seq<char>| #[trigger]
            names.contains(name) && normal(name) == normal(claimed),
        address_listed(ips, ip) <==> ips.contains(octets_of(ip)),
{
    if claim_listed(names, claimed) {
        let i = choose|i: int|
            0 <= i < names.len() && normal(#[trigger] names[i]) == normal(claimed);
        assert(names.contains(names[i]));
    }
    if exists|name: Seq<char>| #[trigger] names.contains(name) && normal(name) == normal(claimed) {
        let name = choose|name: Seq<char>| #[trigger]
            names.contains(name) && normal(name) == normal(claimed);
        let i = choose|i: int| 0 <= i < names.len() && names[i] == name;
        assert(normal(names[i]) == normal(claimed));
    }
    if ips.contains(octets_of(ip)) {
        let i = choose|i: int| 0 <= i < ips.len() && ips[i] == octets_of(ip);
        assert(ips[i] == octets_of(ip));
    }
}

/// The names of a version 4 address are kept under its numbers in reverse.
pub proof fn law_reverse_name_v4(o: [u8; 4])
    ensures
        reverse_name(IpAddr::V4(o)) == join(
            seq![
                decimal(o[3] as nat),
                decimal(o[2] as nat),
                decimal(o[1] as nat),
                decimal(o[0] as nat),
                "in-addr"@,
                "arpa"@,
            ],
            '.',
        ),
{
    reveal_strlit(".in-addr.arpa");
    reveal_strlit("in-addr");
    reveal_strlit("arpa");
    let a = decimal(o[3] as nat);
    let b = decimal(o[2] as nat);
    let c = decimal(o[1] as nat);
    let d = decimal(o[0] as nat);
    let e = "in-addr"@;
    let f = "arpa"@;
    let six = seq![a, b, c, d, e, f];
    let five = seq![a, b, c, d, e];
    let four = seq![a, b, c, d];
    let three = seq![a, b, c];
    let two = seq![a, b];
    let one = seq![a];
    assert(six.drop_last() =~= five);
    assert(five.drop_last() =~= four);
    assert(four.drop_last() =~= three);
    assert(three.drop_last() =~= two);
    assert(two.drop_last() =~= one);
    assert(join(one, '.') == a);
    assert(join(two, '.') == a.push('.') + b);
    assert(join(three, '.') == join(two, '.').push('.') + c);
    assert(join(four, '.') == join(three, '.').push('.') + d);
    assert(join(five, '.') == join(four, '.').push('.') + e);
    assert(join(six, '.') == join(five, '.').push('.') + f);
    assert(".in-addr.arpa"@ =~= seq!['.'] + e + seq!['.'] + f);
    assert(reverse_name(IpAddr::V4(o)) =~= join(six, '.'));
}

/// The names of a version 6 address are kept under its half bytes in reverse,
/// the low half of each before the high one, each as a digit and a dot.
pub proof fn law_reverse_name_v6(o: [u8; 16], i: int)
    requires
        0 <= i < 16,
    ensures
        ({
            let name = reverse_name(IpAddr::V6(o));
            let b = o[15 - i] as int;
            &&& name.len() == 64 + 8
            &&& name[4 * i] == "0123456789abcdef"@[b % 16]
            &&& name[4 * i + 1] == '.'
            &&& name[4 * i + 2] == "0123456789abcdef"@[b / 16]
            &&& name[4 * i + 3] == '.'
            &&& name.skip(64) == "ip6.arpa"@
        }),
{
    reveal_strlit("ip6.arpa");
    let name = reverse_name(IpAddr::V6(o));
    let nibbles = reversed_nibbles(o@);
    lemma_nibbles(o@, i);
    crate::text::law_hex_digit(o[15 - i] as int % 16);
    crate::text::law_hex_digit(o[15 - i] as int / 16);
    assert(name[4 * i] == nibbles[4 * i] && name[4 * i + 1] == nibbles[4 * i + 1] && name[4 * i + 2]
        == nibbles[4 * i + 2] && name[4 * i + 3] == nibbles[4 * i + 3]);
    assert(name.skip(64) =~= "ip6.arpa"@);
}

proof fn lemma_nibbles(octets: Seq<u8>, i: int)
    requires
        0 <= i < octets.len(),
    ensures
        ({
            let text = reversed_nibbles(octets);
            let b = octets[octets.len() - 1 - i] as int;
            &&& text.len() == 4 * octets.len()
            &&& text[4 * i] == hex_digit(b % 16)
            &&& text[4 * i + 1] == '.'
            &&& text[4 * i + 2] == hex_digit(b / 16)
            &&& text[4 * i + 3] == '.'
        }),
    decreases octets.len(),
{
    let rest = octets.drop_last();
    let text = reversed_nibbles(octets);
    let tail = reversed_nibbles(rest);
    if rest.len() > 0 {
        lemma_nibbles(rest, 0);
    } else {
        assert(tail.len() == 0);
    }
    if i > 0 {
        lemma_nibbles(rest, i - 1);
        let k = 4 * (i - 1);
        assert(text[4 + k] == tail[k] && text[5 + k] == tail[k + 1] && text[6 + k] == tail[k + 2]
            && text[7 + k] == tail[k + 3]);
    }
}

/// A query has its identifier, asks for recursion, has one question and
/// nothing else, and ends in the type that is asked for and the internet
/// class.
#[verifier::spinoff_prover]
#[verifier::rlimit(40)]
pub proof fn law_query_fields(id: u16, name: Seq<char>, qtype: u16, i: int)
    requires
        6 <= i < 12,
    ensures
        ({
            let query = query_bytes(id, name, qtype);
            let n = query.len() as int;
            &&& n >= 17
            &&& value16(query, 0) == id
            &&& value16(query, 2) == 0x0100
            &&& value16(query, 4) == 1
            &&& query[i] == 0
            &&& query.subrange(12, n - 5) == query_labels(split(name, '.'))
            &&& query[n - 5] == 0
            &&& value16(query, n - 4) == qtype
            &&& value16(query, n - 2) == 1
        }),
{
    let query = query_bytes(id, name, qtype);
    let n = query.len() as int;
    assert(query[0] == be16(id)[0] && query[1] == be16(id)[1]);
    assert(query[2] == be16(0x0100)[0] && query[3] == be16(0x0100)[1]);
    assert(query[4] == be16(1)[0] && query[5] == be16(1)[1]);
    assert(query[n - 4] == be16(qtype)[0] && query[n - 3] == be16(qtype)[1]);
    assert(query[n - 2] == be16(1)[0] && query[n - 1] == be16(1)[1]);
    assert(query.subrange(12, n - 5) =~= query_labels(split(name, '.')));
}

/// The labels of a query stand one behind the other, each as its length and
/// its bytes; an empty one is left out.
pub proof fn law_query_labels_in_order(a: Seq<Seq<char>>, b: Seq<Seq<char>>, label: Seq<char>)
    ensures
        query_labels(a + b) == query_labels(a) + query_labels(b),
        label.len() > 0 ==> query_labels(seq![label]) == seq![
            (encode_utf8(label).len() % 256) as u8,
        ] + encode_utf8(label),
        label.len() == 0 ==> query_labels(seq![label]).len() == 0,
    decreases b.len(),
{
    let all = a + b;
    let none: Seq<Seq<char>> = Seq::empty();
    let text = encode_utf8(label);
    assert(seq![label].drop_last() =~= none);
    assert(query_labels(none) =~= Seq::empty());
    if label.len() > 0 {
        assert(query_labels(seq![label]) =~= seq![(text.len() % 256) as u8] + text);
    }
    if b.len() == 0 {
        assert(all =~= a);
        assert(query_labels(a) + query_labels(b) =~= query_labels(a));
    } else {
        law_query_labels_in_order(a, b.drop_last(), label);
        assert(all.drop_last() =~= a + b.drop_last());
        assert(all.last() == b.last());
        assert(query_labels(all) =~= query_labels(a) + query_labels(b));
    }
}

/// A name in a message is read label by label and pointer by pointer: a label
/// stands in front of what is read behind it, a pointer for what is read where
/// it points to, and an empty label ends the name. Where a label or a pointer
/// is cut off there is no name, nor behind more than 32 pointers.
pub proof fn law_name_read_on(buf: Seq<u8>, pos: int, jumps: int)
    requires
        0 <= pos < buf.len(),
        0 <= jumps <= 32,
    ensures
        ({
            let b = buf[pos] as int;
            let whole = name_at(buf, pos, jumps);
            &&& b == 0 ==> (whole matches Some((labels, next)) && labels.len() == 0 && next == pos
                + 1)
            &&& 1 <= b <= 191 && pos + 1 + b > buf.len() ==> whole is None
            &&& 1 <= b <= 191 && pos + 1 + b <= buf.len() ==> match name_at(
                buf,
                pos + 1 + b,
                jumps,
            ) {
                None => whole is None,
                Some((rest, end)) => whole matches Some((labels, next)) && labels.len() == rest.len()
                    + 1 && labels[0] == label_text(buf.subrange(pos + 1, pos + 1 + b))
                    && labels.skip(1) == rest && next == end,
            }
            &&& b >= 192 && (pos + 1 >= buf.len() || jumps == 32) ==> whole is None
            &&& b >= 192 && pos + 1 < buf.len() && jumps < 32 ==> match name_at(
                buf,
                (b - 192) * 256 + buf[pos + 1],
                jumps + 1,
            ) {
                None => whole is None,
                Some((target, _)) => whole matches Some((labels, next)) && labels == target && next
                    == pos + 2,
            }
        }),
{
    let b = buf[pos] as int;
    if 1 <= b <= 191 && pos + 1 + b <= buf.len() {
        if let Some((rest, end)) = name_at(buf, pos + 1 + b, jumps) {
            let (labels, _) = name_at(buf, pos, jumps)->0;
            assert(labels.skip(1) =~= rest);
        }
    }
}

/// A label is read as the text whose UTF-8 bytes it has, and with replacement
/// characters where it has others.
pub proof fn law_label_reads_text(s: Seq<char>, bytes: Seq<u8>)
    ensures
        label_text(encode_utf8(s)) == s,
        !valid_utf8(bytes) ==> label_text(bytes) == lossy_text(bytes),
{
    lemma_label_text(s);
}

/// A reply is worth its answers where it is a response with the identifier of
/// the query. One that reports an error, or is no response, has none; one with
/// another identifier, one that is shorter than a header and one that did not
/// come are worth nothing.
pub proof fn law_reply_worth(id: u16, bytes: Seq<u8>)
    ensures
        reply_answers(id, None) is None,
        bytes.len() < 12 || bytes[0] * 256 + bytes[1] != id ==> reply_answers(id, Some(bytes))
            is None,
        bytes.len() >= 12 && bytes[0] * 256 + bytes[1] == id && (bytes[2] < 128 || bytes[3] % 16
            != 0) ==> (reply_answers(id, Some(bytes)) matches Some(answers) && answers.len() == 0),
        bytes.len() >= 12 && bytes[0] * 256 + bytes[1] == id && bytes[2] >= 128 && bytes[3] % 16
            == 0 ==> reply_answers(id, Some(bytes)) == (match questions_end(
            bytes,
            12,
            value16(bytes, 4) as nat,
        ) {
            Some(pos) => answers_at(bytes, pos, value16(bytes, 6) as nat),
            None => None,
        }),
{
}

/// Questions and answers are gone through one by one: behind each name four
/// bytes of a question; or ten bytes of an answer, with its type in front and
/// the length of its data at the end, and the data. The data of a pointer
/// answer is the name that it holds.
pub proof fn law_answers_read_on(buf: Seq<u8>, pos: int, n: nat)
    ensures
        questions_end(buf, pos, 0) == Some(pos),
        answers_at(buf, pos, 0) == Some(Seq::<(u16, Seq<u8>)>::empty()),
        questions_end(buf, pos, n + 1) == (match name_at(buf, pos, 0) {
            None => None,
            Some((_, next)) => questions_end(buf, next + 4, n),
        }),
        name_at(buf, pos, 0) is None ==> answers_at(buf, pos, n + 1) is None,
        name_at(buf, pos, 0) matches Some((_, at)) ==> at + 10 <= buf.len() ==> {
            let end = at + 10 + value16(buf, at + 8);
            match (answers_at(buf, pos, n + 1), answers_at(buf, end, n)) {
                (Some(all), Some(rest)) => {
                    &&& all.len() == rest.len() + 1
                    &&& all.skip(1) == rest
                    &&& all[0].0 == value16(buf, at)
                    &&& value16(buf, at) != 12 ==> end <= buf.len() && all[0].1 == buf.subrange(
                        at + 10,
                        end,
                    )
                    &&& value16(buf, at) == 12 ==> (name_at(buf, at + 10, 0) matches Some(
                        (labels, _),
                    ) && all[0].1 == encode_utf8(join(labels, '.')))
                },
                (None, Some(_)) => if value16(buf, at) == 12 {
                    name_at(buf, at + 10, 0) is None
                } else {
                    end > buf.len()
                },
                (all, None) => all is None,
            }
        },
        name_at(buf, pos, 0) matches Some((_, at)) ==> at + 10 > buf.len() ==> answers_at(
            buf,
            pos,
            n + 1,
        ) is None,
{
    if let Some((_, at)) = name_at(buf, pos, 0) {
        if at + 10 <= buf.len() {
            let end = at + 10 + value16(buf, at + 8);
            if let (Some(all), Some(rest)) = (answers_at(buf, pos, n + 1), answers_at(buf, end, n)) {
                assert(all.skip(1) =~= rest);
            }
        }
    }
}

/// A host name is confirmed exactly where some pointer answer for the address
/// names it, and some address answer for the name is the address: of either
/// version, and at any place among the answers.
pub proof fn law_confirmed_exactly(
    start: Confirmation,
    named: Confirmation,
    half: Confirmation,
    end: Confirmation,
    ptr: Seq<(u16, Seq<u8>)>,
    a: Seq<(u16, Seq<u8>)>,
    aaaa: Seq<(u16, Seq<u8>)>,
    ids: Seq<u16>,
)
    requires
        start.wf(),
        start.stage is Reverse,
        named.follows(start, Some(ptr), ids[0], ids[1]),
        half.follows(named, Some(a), ids[2], ids[3]),
        end.follows(half, Some(aaaa), ids[4], ids[5]),
    ensures
        ({
            let source = octets_of(start.source_ip);
            let claimed = exists|i: int|
                #![trigger ptr[i]]
                0 <= i < ptr.len() && ptr[i].0 == 12 && valid_utf8(ptr[i].1) && normal(
                    decode_utf8(ptr[i].1),
                ) == normal(start.claimed@);
            let found = (source.len() == 4 && a.contains((1u16, source))) || (source.len() == 16
                && aaaa.contains((28u16, source)));
            end.stage == Stage::Done(claimed && found)
        }),
{
    let source = octets_of(start.source_ip);
    let names = names_among(ptr);
    let claimed = exists|i: int|
        #![trigger ptr[i]]
        0 <= i < ptr.len() && ptr[i].0 == 12 && valid_utf8(ptr[i].1) && normal(
            decode_utf8(ptr[i].1),
        ) == normal(start.claimed@);
    assert(claim_listed(names, start.claimed@) == claimed) by {
        if claim_listed(names, start.claimed@) {
            let k = choose|k: int|
                0 <= k < names.len() && normal(#[trigger] names[k]) == normal(start.claimed@);
            law_names_are_answers(ptr, names[k]);
            assert(names.contains(names[k]));
            let i = choose|i: int|
                #![trigger ptr[i]]
                0 <= i < ptr.len() && ptr[i].0 == 12 && valid_utf8(ptr[i].1) && decode_utf8(
                    ptr[i].1,
                ) == names[k];
            assert(ptr[i].0 == 12);
        }
        if claimed {
            let i = choose|i: int|
                #![trigger ptr[i]]
                0 <= i < ptr.len() && ptr[i].0 == 12 && valid_utf8(ptr[i].1) && normal(
                    decode_utf8(ptr[i].1),
                ) == normal(start.claimed@);
            let name = decode_utf8(ptr[i].1);
            law_names_are_answers(ptr, name);
            assert(names.contains(name));
            let k = choose|k: int| 0 <= k < names.len() && names[k] == name;
            assert(normal(names[k]) == normal(start.claimed@));
        }
    }
    if claimed {
        let four = addresses_among(a, 1, 4);
        let six = addresses_among(aaaa, 28, 16);
        law_addresses_are_answers(a, 1, 4, source);
        law_addresses_are_answers(aaaa, 28, 16, source);
        assert(named.stage is ForwardA);
        assert(half.stage is ForwardAaaa);
        assert(all_octets(named.ips@) =~= Seq::empty());
        assert(all_octets(half.ips@) =~= four);
        let all = all_octets(end.ips@);
        assert(all == four + six);
        if four.contains(source) {
            let i = choose|i: int| 0 <= i < four.len() && four[i] == source;
            assert(all[i] == source);
        }
        if six.contains(source) {
            let i = choose|i: int| 0 <= i < six.len() && six[i] == source;
            assert(all[four.len() + i] == source);
        }
        if address_listed(all, start.source_ip) {
            let i = choose|i: int| 0 <= i < all.len() && #[trigger] all[i] == source;
            if i < four.len() {
                assert(four[i] == source);
            } else {
                assert(six[i - four.len()] == source);
            }
        }
    }
}

/// Where a resolver gives no answer the next one is asked the same. Behind the
/// last one a check without names fails; one without version 4 addresses goes
/// on to version 6; and one without version 6 addresses goes by those that it
/// has. Nothing that was found is lost on the way.
pub proof fn law_resolvers_in_turn(
    before: Confirmation,
    after: Confirmation,
    id: u16,
    next_id: u16,
)
    requires
        before.wf(),
        after.follows(before, None, id, next_id),
    ensures
        after.source_ip == before.source_ip,
        after.claimed@ == before.claimed@,
        after.resolvers == before.resolvers,
        match before.stage {
            Stage::Reverse(q) => if q.resolver + 1 < before.resolvers {
                after.stage matches Stage::Reverse(next) && next.id == q.id && next.name@ == q.name@
                    && next.qtype == 12 && next.resolver == q.resolver + 1
            } else {
                after.stage == Stage::Done(false)
            },
            Stage::ForwardA(q) => after.names@ == before.names@ && after.ips@ == before.ips@ && if
                q.resolver + 1 < before.resolvers {
                after.stage matches Stage::ForwardA(next) && next.id == q.id && next.name@
                    == before.claimed@ && next.qtype == 1 && next.resolver == q.resolver + 1
            } else {
                after.stage matches Stage::ForwardAaaa(next) && next.id == next_id && next.name@
                    == before.claimed@ && next.qtype == 28 && next.resolver == 0
            },
            Stage::ForwardAaaa(q) => after.names@ == before.names@ && after.ips@ == before.ips@
                && if q.resolver + 1 < before.resolvers {
                after.stage matches Stage::ForwardAaaa(next) && next.id == q.id && next.name@
                    == before.claimed@ && next.qtype == 28 && next.resolver == q.resolver + 1
            } else {
                after.stage == Stage::Done(
                    all_octets(before.ips@).contains(octets_of(before.source_ip)),
                )
            },
            Stage::Done(_) => after == before,
        },
{
    law_listed_by_any(
        Seq::empty(),
        before.claimed@,
        all_octets(before.ips@),
        before.source_ip,
    );
}

/// A check starts with the first resolver, which is asked for the names of the
/// address; and once the claimed name is among them, for its addresses of
/// version 4 and then of version 6. Without a resolver it fails.
pub proof fn law_check_starts_in_reverse(c: Confirmation, id: u16)
    requires
        c.asks_reverse(id, 0),
    ensures
        c.resolvers > 0 ==> (c.stage matches Stage::Reverse(q) && q.id == id && q.name@
            == reverse_name(c.source_ip) && q.qtype == 12 && q.resolver == 0),
        c.resolvers == 0 ==> c.stage == Stage::Done(false),
        c.names@.len() == 0,
        c.ips@.len() == 0,
{
}

/// What is asked once the names are there, and once the version 4 addresses
/// are there.
pub proof fn law_forward_queries(
    before: Confirmation,
    after: Confirmation,
    answers: Seq<(u16, Seq<u8>)>,
    id: u16,
    next_id: u16,
)
    requires
        before.wf(),
        after.follows(before, Some(answers), id, next_id),
    ensures
        before.stage is Reverse && !(after.stage is Done) ==> (after.stage matches Stage::ForwardA(q)
            && q.id == id && q.name@ == before.claimed@ && q.qtype == 1 && q.resolver == 0),
        before.stage is ForwardA ==> (after.stage matches Stage::ForwardAaaa(q) && q.id == next_id
            && q.name@ == before.claimed@ && q.qtype == 28 && q.resolver == 0),
        before.stage is ForwardAaaa ==> after.stage is Done,
{
}

/// A query asks the resolver that it says for what it says, and fails only
/// where there is no such resolver.
pub proof fn law_query_asks(
    progress: QueryProgress,
    id: u16,
    name: Seq<char>,
    qtype: u16,
    resolver: int,
    resolvers: usize,
)
    requires
        Query::asks(progress, id, name, qtype, resolver, resolvers),
    ensures
        resolver < resolvers ==> (progress matches QueryProgress::Ask(q) && q.id == id && q.name@
            == name && q.qtype == qtype && q.resolver == resolver),
        resolver >= resolvers ==> progress is Failed,
{
}

/// The worth of a reply is judged by the identifier of the query on its way,
/// whatever is asked for.
pub proof fn law_worth_by_own_identifier(c: Confirmation, reply: Option<Seq<u8>>)
    ensures
        match c.stage {
            Stage::Reverse(q) => c.worth(reply) == reply_answers(q.id, reply),
            Stage::ForwardA(q) => c.worth(reply) == reply_answers(q.id, reply),
            Stage::ForwardAaaa(q) => c.worth(reply) == reply_answers(q.id, reply),
            Stage::Done(_) => true,
        },
{
}

/// Answers, addresses and replies are taken as they are, each at its place,
/// and a check is one of its own address, name and resolvers.
pub proof fn law_evidence_is_own(
    answers: Seq<(u16, Vec<u8>)>,
    ips: Seq<IpAddr>,
    reply: Option<Vec<u8>>,
    c: Confirmation,
    i: int,
)
    ensures
        answers_view(answers).len() == answers.len(),
        0 <= i < answers.len() ==> answers_view(answers)[i].0 == answers[i].0 && answers_view(
            answers,
        )[i].1 == answers[i].1@,
        all_octets(ips).len() == ips.len(),
        0 <= i < ips.len() ==> all_octets(ips)[i] == octets_of(ips[i]),
        reply matches Some(bytes) ==> reply_bytes(reply) == Some(bytes@),
        reply is None ==> reply_bytes(reply) is None,
        c.claim().source_ip == c.source_ip,
        c.claim().claimed == c.claimed@,
        c.claim().resolvers == c.resolvers,
{
}

/// An identifier counts as drawn only where the random number generator gave
/// it.
pub(crate) proof fn law_identifier_drawn_by_generator(id: u16)
    requires
        drawn_id(id),
    ensures
        call_ensures(random_id, (), id),
{
}

} // verus!
