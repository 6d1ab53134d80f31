//! IP addresses as octets, and the usual text forms of them.

use vstd::arithmetic::power::pow;
use vstd::prelude::*;
use crate::bytes::{be16, push_be16, push_bytes, sixteen};
use crate::text::{
    chars_of, decimal, find_char, index_from, join, split, split_text, string_between, texts,
};

verus! {

/// An IP address of either version, as its octets in network order.
#[derive(Debug, Clone, Copy, PartialEq, Eq)]
pub enum IpAddr {
    V4([u8; 4]),
    V6([u8; 16]),
}

// ---------------------------------------------------------------------
// Numbers in text
// ---------------------------------------------------------------------

/// The value of a digit in base ten or sixteen, in either case.
pub open spec fn digit_in(c: char, radix: int) -> Option<int> {
    let v = c as u32 as int;
    let d = if '0' <= c <= '9' {
        v - 48
    } else if 'a' <= c <= 'f' {
        v - 87
    } else if 'A' <= c <= 'F' {
        v - 55
    } else {
        99
    };
    if d < radix {
        Some(d)
    } else {
        None
    }
}

/// The number that a run of digits spells; `None` where one is no digit.
pub open spec fn number_in(s: Seq<char>, radix: int) -> Option<int>
    decreases s.len(),
{
    if s.len() == 0 {
        Some(0)
    } else {
        match (number_in(s.drop_last(), radix), digit_in(s.last(), radix)) {
            (Some(front), Some(d)) => Some(front * radix + d),
            _ => None,
        }
    }
}

/// A number of at least one decimal digit that is at most `max`.
pub open spec fn decimal_value(s: Seq<char>, max: int) -> Option<int> {
    match number_in(s, 10) {
        Some(v) if s.len() > 0 && v <= max => Some(v),
        _ => None,
    }
}

/// One of the four numbers of a dotted address: one to three decimal digits,
/// no leading zero, at most 255.
pub open spec fn octet(s: Seq<char>) -> Option<u8> {
    match number_in(s, 10) {
        Some(v) if 1 <= s.len() <= 3 && v <= 255 && (s.len() > 1 ==> s[0] != '0') => Some(v as u8),
        _ => None,
    }
}

/// One group of a version 6 address: one to four hexadecimal digits.
pub open spec fn group(s: Seq<char>) -> Option<u16> {
    match number_in(s, 16) {
        Some(v) if 1 <= s.len() <= 4 => Some(v as u16),
        _ => None,
    }
}

/// The octets of a dotted address.
pub open spec fn v4_octets(s: Seq<char>) -> Option<Seq<u8>> {
    let parts = split(s, '.');
    if parts.len() != 4 {
        None
    } else {
        match (octet(parts[0]), octet(parts[1]), octet(parts[2]), octet(parts[3])) {
            (Some(a), Some(b), Some(c), Some(d)) => Some(seq![a, b, c, d]),
            _ => None,
        }
    }
}

/// The octets of a run of groups. The last part may be a dotted address
/// where `dotted` says so, and stands for two groups.
pub open spec fn group_octets(parts: Seq<Seq<char>>, dotted: bool) -> Option<Seq<u8>>
    decreases parts.len(),
{
    if parts.len() == 0 {
        Some(Seq::empty())
    } else {
        let last = match group(parts.last()) {
            Some(v) => Some(be16(v)),
            None => if dotted {
                v4_octets(parts.last())
            } else {
                None
            },
        };
        match (group_octets(parts.drop_last(), false), last) {
            (Some(front), Some(back)) => Some(front + back),
            _ => None,
        }
    }
}

/// The octets of the groups on one side of a `::`, where there may be none.
pub open spec fn side_octets(s: Seq<char>, dotted: bool) -> Option<Seq<u8>> {
    if s.len() == 0 {
        Some(Seq::empty())
    } else {
        group_octets(split(s, ':'), dotted)
    }
}

/// The index of the first `::` from `from` on, or the length.
pub open spec fn double_colon(s: Seq<char>, from: int) -> int
    decreases s.len() - from,
{
    if from < 0 || from + 1 >= s.len() {
        s.len() as int
    } else if s[from] == ':' && s[from + 1] == ':' {
        from
    } else {
        double_colon(s, from + 1)
    }
}

/// The sixteen octets of a version 6 address: eight groups, or fewer around
/// one `::` that stands for at least one zero group.
pub open spec fn v6_octets(s: Seq<char>) -> Option<Seq<u8>> {
    let cut = double_colon(s, 0);
    if cut >= s.len() {
        match group_octets(split(s, ':'), true) {
            Some(all) if all.len() == 16 => Some(all),
            _ => None,
        }
    } else {
        match (side_octets(s.take(cut), false), side_octets(s.skip(cut + 2), true)) {
            (Some(front), Some(back)) if front.len() + back.len() <= 14 => Some(
                front + Seq::new((16 - front.len() - back.len()) as nat, |i: int| 0u8) + back,
            ),
            _ => None,
        }
    }
}

// ---------------------------------------------------------------------
// Reading
// ---------------------------------------------------------------------

proof fn lemma_number_bound(s: Seq<char>, radix: int)
    requires
        radix == 10 || radix == 16,
    ensures
        number_in(s, radix) matches Some(v) ==> v >= 0 && (s.len() <= 1 ==> v < 16) && (s.len()
            <= 2 ==> v < 256) && (s.len() <= 3 ==> v < 4096) && (s.len() <= 4 ==> v < 65536),
    decreases s.len(),
{
    if s.len() > 0 {
        lemma_number_bound(s.drop_last(), radix);
        if let Some(front) = number_in(s.drop_last(), radix) {
            if radix == 10 {
                assert(front * radix == front * 10);
            } else {
                assert(front * radix == front * 16);
            }
        }
        if s.len() <= 1 {
            assert(s.drop_last().len() == 0);
        }
    }
}

fn read_digit(c: char, radix: u32) -> (r: Option<u32>)
    requires
        radix == 10 || radix == 16,
    ensures
        match r {
            Some(d) => digit_in(c, radix as int) == Some(d as int) && d < radix,
            None => digit_in(c, radix as int) is None,
        },
{
    let v: u32 = c as u32;
    let d: u32 = if '0' <= c && c <= '9' {
        v - 48
    } else if 'a' <= c && c <= 'f' {
        v - 87
    } else if 'A' <= c && c <= 'F' {
        v - 55
    } else {
        99
    };
    if d < radix {
        Some(d)
    } else {
        None
    }
}

/// Reads a run of at most four digits.
fn read_short_number(chars: &Vec<char>, radix: u32) -> (r: Option<u32>)
    requires
        radix == 10 || radix == 16,
        chars@.len() <= 4,
    ensures
        match r {
            Some(v) => number_in(chars@, radix as int) == Some(v as int) && v < 65536,
            None => number_in(chars@, radix as int) is None,
        },
{
    let mut v: u32 = 0;
    let mut i: usize = 0;
    assert(chars@.take(0) =~= Seq::empty());
    while i < chars.len()
        invariant
            radix == 10 || radix == 16,
            i <= chars@.len() <= 4,
            number_in(chars@.take(i as int), radix as int) == Some(v as int),
            v < 65536,
        decreases chars.len() - i,
    {
        assert(chars@.take(i + 1).drop_last() =~= chars@.take(i as int));
        proof {
            lemma_number_bound(chars@.take(i as int), radix as int);
            lemma_number_bound(chars@.take(i + 1), radix as int);
        }
        match read_digit(chars[i], radix) {
            Some(d) => {
                if radix == 10 {
                    v = v * 10 + d;
                } else {
                    v = v * 16 + d;
                }
            },
            None => {
                proof {
                    lemma_number_fails(chars@, i as int, radix as int);
                }
                return None;
            },
        }
        i = i + 1;
    }
    assert(chars@.take(i as int) =~= chars@);
    Some(v)
}

/// A character that is no digit spoils every run that holds it.
proof fn lemma_number_fails(s: Seq<char>, i: int, radix: int)
    requires
        0 <= i < s.len(),
        digit_in(s[i], radix) is None,
    ensures
        number_in(s, radix) is None,
    decreases s.len(),
{
    if i < s.len() - 1 {
        lemma_number_fails(s.drop_last(), i, radix);
    }
}

/// A run of digits is a run of digits from the first, and grows with each.
proof fn lemma_number_grows(s: Seq<char>, k: int)
    requires
        0 <= k <= s.len(),
        number_in(s, 10) is Some,
    ensures
        number_in(s.take(k), 10) is Some,
        0 <= number_in(s.take(k), 10)->0 <= number_in(s, 10)->0,
    decreases s.len(),
{
    if k < s.len() {
        lemma_number_grows(s.drop_last(), k);
        assert(s.drop_last().take(k) =~= s.take(k));
    } else {
        assert(s.take(k) =~= s);
        if s.len() > 0 {
            lemma_number_grows(s.drop_last(), s.len() - 1);
        }
    }
}

/// Reads the decimal number in `from..to`, if it is one of at most `max`.
pub fn read_decimal(chars: &Vec<char>, from: usize, to: usize, max: u32) -> (r: Option<u32>)
    requires
        from <= to <= chars@.len(),
    ensures
        match r {
            Some(v) => decimal_value(chars@.subrange(from as int, to as int), max as int) == Some(
                v as int,
            ) && v <= max,
            None => decimal_value(chars@.subrange(from as int, to as int), max as int) is None,
        },
{
    let ghost body = chars@.subrange(from as int, to as int);
    if from == to {
        return None;
    }
    let mut v: u64 = 0;
    let mut i: usize = from;
    assert(body.take(0) =~= Seq::empty());
    while i < to
        invariant
            from <= i <= to <= chars@.len(),
            body == chars@.subrange(from as int, to as int),
            number_in(body.take(i - from), 10) == Some(v as int),
            v <= max,
        decreases to - i,
    {
        assert(body.take(i - from + 1).drop_last() =~= body.take(i - from));
        assert(body[i - from] == chars@[i as int]);
        let symbol = chars[i];
        match read_digit(symbol, 10) {
            Some(d) => {
                v = v * 10 + d as u64;
                assert(number_in(body.take(i - from + 1), 10) == Some(v as int));
            },
            None => {
                proof {
                    lemma_number_fails(body, i - from, 10);
                }
                return None;
            },
        }
        if v > max as u64 {
            proof {
                if number_in(body, 10) is Some {
                    lemma_number_grows(body, i - from + 1);
                }
            }
            return None;
        }
        i = i + 1;
    }
    assert(body.take(i - from) =~= body);
    Some(v as u32)
}

fn read_octet(text: &str) -> (r: Option<u8>)
    ensures
        r == octet(text@),
{
    let chars = chars_of(text);
    if chars.len() == 0 || chars.len() > 3 || (chars.len() > 1 && chars[0] == '0') {
        None
    } else {
        match read_short_number(&chars, 10) {
            Some(v) => if v <= 255 {
                Some(v as u8)
            } else {
                None
            },
            None => None,
        }
    }
}

fn read_group(text: &str) -> (r: Option<u16>)
    ensures
        r == group(text@),
{
    let chars = chars_of(text);
    if chars.len() == 0 || chars.len() > 4 {
        None
    } else {
        match read_short_number(&chars, 16) {
            Some(v) => Some(v as u16),
            None => None,
        }
    }
}

/// Reads a dotted version 4 address.
pub fn parse_v4(text: &str) -> (r: Option<[u8; 4]>)
    ensures
        match r {
            Some(octets) => v4_octets(text@) == Some(octets@),
            None => v4_octets(text@) is None,
        },
{
    let parts = split_text(text, '.');
    let ghost pieces = split(text@, '.');
    assert(pieces.len() == parts@.len());
    if parts.len() != 4 {
        return None;
    }
    assert(pieces[0] == parts@[0]@ && pieces[1] == parts@[1]@ && pieces[2] == parts@[2]@
        && pieces[3] == parts@[3]@);
    match (
        read_octet(parts[0].as_str()),
        read_octet(parts[1].as_str()),
        read_octet(parts[2].as_str()),
        read_octet(parts[3].as_str()),
    ) {
        (Some(a), Some(b), Some(c), Some(d)) => {
            let r: [u8; 4] = [a, b, c, d];
            assert(r@ =~= seq![a, b, c, d]);
            Some(r)
        },
        _ => None,
    }
}

proof fn lemma_group_octets_fail(parts: Seq<Seq<char>>, i: int, dotted: bool)
    requires
        0 <= i <= parts.len(),
        group_octets(parts.take(i), false) is None,
        i < parts.len(),
    ensures
        group_octets(parts, dotted) is None,
    decreases parts.len(),
{
    if i == parts.len() - 1 {
        assert(parts.drop_last() =~= parts.take(i));
    } else {
        assert(parts.drop_last().take(i) =~= parts.take(i));
        lemma_group_octets_fail(parts.drop_last(), i, false);
    }
}

fn read_groups(parts: &Vec<String>, dotted: bool) -> (r: Option<Vec<u8>>)
    ensures
        match r {
            Some(octets) => group_octets(texts(parts@), dotted) == Some(octets@),
            None => group_octets(texts(parts@), dotted) is None,
        },
{
    let ghost pieces = texts(parts@);
    let mut out: Vec<u8> = Vec::new();
    let mut i: usize = 0;
    assert(pieces.take(0) =~= Seq::empty());
    while i < parts.len()
        invariant
            pieces == texts(parts@),
            i <= parts@.len(),
            group_octets(pieces.take(i as int), dotted && i == parts@.len()) == Some(out@),
        decreases parts.len() - i,
    {
        assert(pieces.take(i + 1).drop_last() =~= pieces.take(i as int));
        assert(pieces[i as int] == parts@[i as int]@);
        let last: bool = i + 1 == parts.len();
        assert(last ==> pieces.take(i + 1) =~= pieces);
        match read_group(parts[i].as_str()) {
            Some(v) => {
                push_be16(&mut out, v);
            },
            None => {
                if dotted && last {
                    match parse_v4(parts[i].as_str()) {
                        Some(octets) => {
                            push_bytes(&mut out, octets.as_slice());
                        },
                        None => {
                            return None;
                        },
                    }
                } else {
                    proof {
                        assert(group_octets(pieces.take(i + 1), false) is None);
                        if !last {
                            lemma_group_octets_fail(pieces, i + 1, dotted);
                        }
                    }
                    return None;
                }
            },
        }
        i = i + 1;
    }
    assert(pieces.take(i as int) =~= pieces);
    Some(out)
}

fn read_side(text: &str, dotted: bool) -> (r: Option<Vec<u8>>)
    ensures
        match r {
            Some(octets) => side_octets(text@, dotted) == Some(octets@),
            None => side_octets(text@, dotted) is None,
        },
{
    let chars = chars_of(text);
    if chars.len() == 0 {
        Some(Vec::new())
    } else {
        let parts = split_text(text, ':');
        read_groups(&parts, dotted)
    }
}

/// Reads a version 6 address.
pub fn parse_v6(text: &str) -> (r: Option<[u8; 16]>)
    ensures
        match r {
            Some(octets) => v6_octets(text@) == Some(octets@),
            None => v6_octets(text@) is None,
        },
{
    let chars = chars_of(text);
    let len: usize = chars.len();
    let mut cut: usize = 0;
    while cut < len && !(cut + 1 < len && chars[cut] == ':' && chars[cut + 1] == ':')
        invariant
            chars@ == text@,
            cut <= len == chars@.len(),
            double_colon(text@, 0) == double_colon(text@, cut as int),
        decreases len - cut,
    {
        cut = cut + 1;
    }
    if cut == len {
        let parts = split_text(text, ':');
        match read_groups(&parts, true) {
            Some(all) => if all.len() == 16 {
                Some(sixteen(&all))
            } else {
                None
            },
            None => None,
        }
    } else {
        let front = string_between(&chars, 0, cut);
        let back = string_between(&chars, cut + 2, len);
        assert(front@ =~= text@.take(cut as int));
        assert(back@ =~= text@.skip(cut + 2));
        match (read_side(front.as_str(), false), read_side(back.as_str(), true)) {
            (Some(head), Some(tail)) => if head.len() <= 14 && tail.len() <= 14 - head.len() {
                let mut all = head;
                let fill: usize = 16 - tail.len();
                let ghost zeros = Seq::new((16 - all@.len() - tail@.len()) as nat, |i: int| 0u8);
                let ghost start = all@;
                assert(all@ =~= start + zeros.take(0));
                while all.len() < fill
                    invariant
                        start.len() <= all@.len() <= fill,
                        zeros.len() == fill - start.len(),
                        forall|i: int| 0 <= i < zeros.len() ==> zeros[i] == 0,
                        all@ == start + zeros.take(all@.len() - start.len()),
                    decreases fill - all.len(),
                {
                    let ghost before = all@;
                    all.push(0);
                    assert(all@ =~= start + zeros.take(all@.len() - start.len()));
                }
                assert(zeros.take(zeros.len() as int) =~= zeros);
                push_bytes(&mut all, tail.as_slice());
                Some(sixteen(&all))
            } else {
                None
            },
            _ => None,
        }
    }
}

// ---------------------------------------------------------------------
// Socket addresses
// ---------------------------------------------------------------------

/// An IP address with a port. A version 6 address may have a scope, which
/// is zero otherwise.
#[derive(Debug, Clone, Copy, PartialEq, Eq)]
pub struct SocketAddr {
    pub ip: IpAddr,
    pub port: u16,
    pub scope_id: u32,
}

/// The octets of an address; their number tells the version.
pub open spec fn octets_of(ip: IpAddr) -> Seq<u8> {
    match ip {
        IpAddr::V4(o) => o@,
        IpAddr::V6(o) => o@,
    }
}

/// A socket address as plain values: octets, port and scope.
pub open spec fn endpoint_of(addr: SocketAddr) -> (Seq<u8>, u16, u32) {
    (octets_of(addr.ip), addr.port, addr.scope_id)
}

/// The socket address that a text spells: a dotted address, a colon and a
/// port; or a version 6 address in square brackets, with a scope behind a
/// percent sign where it has one, a colon and a port.
pub open spec fn endpoint(s: Seq<char>) -> Option<(Seq<u8>, u16, u32)> {
    if s.len() > 0 && s[0] == '[' {
        let close = index_from(s, ']', 0);
        if close + 1 >= s.len() || s[close + 1] != ':' {
            None
        } else {
            let inner = s.subrange(1, close);
            let cut = index_from(inner, '%', 0);
            let scope = if cut < inner.len() {
                decimal_value(inner.skip(cut + 1), u32::MAX as int)
            } else {
                Some(0)
            };
            match (v6_octets(inner.take(cut)), scope, decimal_value(s.skip(close + 2), 0xffff)) {
                (Some(octets), Some(scope_id), Some(port)) => Some(
                    (octets, port as u16, scope_id as u32),
                ),
                _ => None,
            }
        }
    } else {
        let cut = index_from(s, ':', 0);
        if cut >= s.len() {
            None
        } else {
            match (v4_octets(s.take(cut)), decimal_value(s.skip(cut + 1), 0xffff)) {
                (Some(octets), Some(port)) => Some((octets, port as u16, 0)),
                _ => None,
            }
        }
    }
}

/// Reads a socket address.
pub fn parse_socket_addr(text: &str) -> (r: Option<SocketAddr>)
    ensures
        match r {
            Some(addr) => endpoint(text@) == Some(endpoint_of(addr)),
            None => endpoint(text@) is None,
        },
{
    let chars = chars_of(text);
    let len: usize = chars.len();
    if len > 0 && chars[0] == '[' {
        let close: usize = find_char(&chars, ']');
        if close >= len || close + 1 >= len || chars[close + 1] != ':' {
            return None;
        }
        let inner_text = string_between(&chars, 1, close);
        let inner = chars_of(inner_text.as_str());
        let cut: usize = find_char(&inner, '%');
        let scope: Option<u32> = if cut < inner.len() {
            assert(inner@.subrange(cut + 1, inner@.len() as int) =~= inner@.skip(cut + 1));
            read_decimal(&inner, cut + 1, inner.len(), u32::MAX)
        } else {
            Some(0)
        };
        let ip_text = string_between(&inner, 0, cut);
        assert(ip_text@ =~= inner@.take(cut as int));
        assert(chars@.subrange(close + 2, len as int) =~= text@.skip(close + 2));
        let port: Option<u32> = read_decimal(&chars, close + 2, len, 0xffff);
        match (parse_v6(ip_text.as_str()), scope, port) {
            (Some(octets), Some(scope_id), Some(port)) => Some(
                SocketAddr { ip: IpAddr::V6(octets), port: port as u16, scope_id },
            ),
            _ => None,
        }
    } else {
        let cut: usize = find_char(&chars, ':');
        if cut >= len {
            return None;
        }
        let ip_text = string_between(&chars, 0, cut);
        assert(ip_text@ =~= text@.take(cut as int));
        assert(chars@.subrange(cut + 1, len as int) =~= text@.skip(cut + 1));
        let port: Option<u32> = read_decimal(&chars, cut + 1, len, 0xffff);
        match (parse_v4(ip_text.as_str()), port) {
            (Some(octets), Some(port)) => Some(
                SocketAddr { ip: IpAddr::V4(octets), port: port as u16, scope_id: 0 },
            ),
            _ => None,
        }
    }
}

// ---------------------------------------------------------------------
// Laws
// ---------------------------------------------------------------------

/// The digits are the usual ones, the letters in either case; no other
/// character is a digit.
pub proof fn law_digits_read(d: int, c: char)
    requires
        0 <= d < 16,
    ensures
        digit_in("0123456789abcdef"@[d], 16) == Some(d),
        digit_in("0123456789ABCDEF"@[d], 16) == Some(d),
        d < 10 ==> digit_in("0123456789"@[d], 10) == Some(d),
        !('0' <= c <= '9') ==> digit_in(c, 10) is None,
        !('0' <= c <= '9' || 'a' <= c <= 'f' || 'A' <= c <= 'F') ==> digit_in(c, 16) is None,
{
    reveal_strlit("0123456789abcdef");
    reveal_strlit("0123456789ABCDEF");
    reveal_strlit("0123456789");
}

/// Digits behind others count as many places less: two runs in a row spell
/// the first, moved to the left by the length of the second, plus the second.
pub proof fn law_number_concat(a: Seq<char>, b: Seq<char>, c: char, radix: int)
    ensures
        number_in(a + b, radix) == (match (number_in(a, radix), number_in(b, radix)) {
            (Some(x), Some(y)) => Some(x * pow(radix, b.len()) + y),
            _ => None,
        }),
        number_in(Seq::empty(), radix) == Some(0int),
        number_in(seq![c], radix) == digit_in(c, radix),
    decreases b.len(),
{
    let all = a + b;
    let none: Seq<char> = Seq::empty();
    assert(number_in(none, radix) == Some(0int));
    assert(seq![c].drop_last() =~= none);
    assert(0 * radix == 0) by (nonlinear_arith);
    reveal(pow);
    if b.len() == 0 {
        assert(all =~= a);
        assert(b =~= none);
        if let Some(x) = number_in(a, radix) {
            assert(x * pow(radix, 0) == x) by (nonlinear_arith)
                requires
                    pow(radix, 0) == 1,
            ;
        }
    } else {
        let front = b.drop_last();
        law_number_concat(a, front, c, radix);
        assert(all.drop_last() =~= a + front);
        if let (Some(x), Some(y), Some(d)) = (
            number_in(a, radix),
            number_in(front, radix),
            digit_in(b.last(), radix),
        ) {
            let p = pow(radix, front.len());
            assert(pow(radix, b.len()) == radix * p);
            assert((x * p + y) * radix + d == x * (radix * p) + (y * radix + d))
                by (nonlinear_arith);
        }
    }
}

/// The decimal spelling of a number is read as that number.
pub proof fn law_decimal_reads_back(n: nat)
    ensures
        number_in(decimal(n), 10) == Some(n as int),
    decreases n,
{
    let text = decimal(n);
    let none: Seq<char> = Seq::empty();
    assert(number_in(none, 10) == Some(0int));
    if n >= 10 {
        law_decimal_reads_back(n / 10);
        assert(text.drop_last() =~= decimal(n / 10));
    } else {
        assert(text.drop_last() =~= none);
    }
}

/// A run of digits without a zero in front is the decimal spelling of the
/// number that it is read as.
proof fn lemma_decimal_unique(s: Seq<char>)
    requires
        s.len() > 0,
        number_in(s, 10) is Some,
        s.len() > 1 ==> s[0] != '0',
    ensures
        number_in(s, 10)->0 >= 0,
        s[0] != '0' ==> number_in(s, 10)->0 > 0,
        s == decimal(number_in(s, 10)->0 as nat),
    decreases s.len(),
{
    let front = s.drop_last();
    let v = number_in(s, 10)->0;
    let none: Seq<char> = Seq::empty();
    assert(number_in(none, 10) == Some(0int));
    if s.len() == 1 {
        assert(front =~= none);
        assert(s =~= decimal(v as nat));
    } else {
        assert(front[0] == s[0]);
        lemma_decimal_unique(front);
        let f = number_in(front, 10)->0;
        let d = digit_in(s.last(), 10)->0;
        assert(v == f * 10 + d);
        assert(v as nat / 10 == f as nat);
        assert(s =~= front.push(s.last()));
    }
}

/// A number of a dotted address is spelled in one way only: without zeros in
/// front.
pub proof fn law_octet_is_decimal(s: Seq<char>, v: u8)
    ensures
        octet(s) == Some(v) <==> s == decimal(v as nat),
{
    if octet(s) == Some(v) {
        lemma_decimal_unique(s);
    }
    if s == decimal(v as nat) {
        law_decimal_reads_back(v as nat);
        crate::text::lemma_decimal_digits(v as nat);
        assert(s.len() <= 3 && (s.len() > 1 ==> s[0] != '0')) by {
            let n = v as nat;
            if n >= 10 {
                assert(decimal(n) == decimal(n / 10).push(crate::text::digit((n % 10) as int)));
                if n >= 100 {
                    assert(decimal(n / 10) == decimal(n / 10 / 10).push(
                        crate::text::digit((n / 10 % 10) as int),
                    ));
                }
            }
        }
    }
}

/// A version 4 address is read exactly from its four numbers in decimal with
/// dots between them.
pub proof fn law_v4_is_dotted(s: Seq<char>, octets: Seq<u8>)
    ensures
        v4_octets(s) == Some(octets) <==> octets.len() == 4 && s == join(
            seq![
                decimal(octets[0] as nat),
                decimal(octets[1] as nat),
                decimal(octets[2] as nat),
                decimal(octets[3] as nat),
            ],
            '.',
        ),
{
    let parts = split(s, '.');
    let spelled = seq![
        decimal(octets[0] as nat),
        decimal(octets[1] as nat),
        decimal(octets[2] as nat),
        decimal(octets[3] as nat),
    ];
    if v4_octets(s) == Some(octets) {
        crate::text::lemma_join_split(s, '.');
        law_octet_is_decimal(parts[0], octets[0]);
        law_octet_is_decimal(parts[1], octets[1]);
        law_octet_is_decimal(parts[2], octets[2]);
        law_octet_is_decimal(parts[3], octets[3]);
        assert(parts =~= spelled);
    }
    if octets.len() == 4 && s == join(spelled, '.') {
        assert forall|i: int, j: int| 0 <= i < 4 && 0 <= j < spelled[i].len() implies
            #[trigger] spelled[i][j] != '.' by {
            crate::text::lemma_decimal_digits(octets[i] as nat);
        }
        crate::text::lemma_split_join(spelled, '.');
        law_octet_is_decimal(parts[0], octets[0]);
        law_octet_is_decimal(parts[1], octets[1]);
        law_octet_is_decimal(parts[2], octets[2]);
        law_octet_is_decimal(parts[3], octets[3]);
        assert(v4_octets(s)->0 =~= octets);
    }
}

/// A group is one to four hexadecimal digits, and stands for the number that
/// they spell.
pub proof fn law_group_is_hex(s: Seq<char>)
    ensures
        group(s) is Some <==> 1 <= s.len() <= 4 && number_in(s, 16) is Some,
        group(s) matches Some(v) ==> number_in(s, 16) == Some(v as int),
{
    lemma_number_bound(s, 16);
}

/// A group has digits only.
proof fn lemma_group_chars(s: Seq<char>, j: int)
    requires
        group(s) is Some,
        0 <= j < s.len(),
    ensures
        s[j] != ':',
        s[j] != '.',
{
    if digit_in(s[j], 16) is None {
        lemma_number_fails(s, j, 16);
    }
}

/// The octets of groups, two for each.
proof fn lemma_groups_read(parts: Seq<Seq<char>>, dotted: bool)
    requires
        forall|i: int| 0 <= i < parts.len() ==> group(#[trigger] parts[i]) is Some,
    ensures
        group_octets(parts, dotted) is Some,
        group_octets(parts, dotted)->0.len() == 2 * parts.len(),
        forall|i: int|
            0 <= i < parts.len() ==> group_octets(parts, dotted)->0[2 * i] * 256 + group_octets(
                parts,
                dotted,
            )->0[2 * i + 1] == group(#[trigger] parts[i])->0,
    decreases parts.len(),
{
    if parts.len() > 0 {
        let front = parts.drop_last();
        assert forall|i: int| 0 <= i < front.len() implies group(#[trigger] front[i]) is Some by {
            assert(front[i] == parts[i]);
        }
        lemma_groups_read(front, false);
        let n = parts.len() - 1;
        assert(group(parts[n]) is Some);
        let head = group_octets(front, false)->0;
        let back = be16(group(parts[n])->0);
        let all = group_octets(parts, dotted)->0;
        assert(all == head + back);
        assert forall|i: int| 0 <= i < parts.len() implies all[2 * i] * 256 + all[2 * i + 1]
            == group(#[trigger] parts[i])->0 by {
            if i < n {
                assert(front[i] == parts[i]);
                assert(all[2 * i] == head[2 * i] && all[2 * i + 1] == head[2 * i + 1]);
            } else {
                assert(all[2 * i] == back[0] && all[2 * i + 1] == back[1]);
            }
        }
    }
}

/// Groups with colons between them have no two colons in a row, and none at
/// either end.
proof fn lemma_no_double_colon(parts: Seq<Seq<char>>)
    requires
        parts.len() > 0,
        forall|i: int| 0 <= i < parts.len() ==> (#[trigger] parts[i]).len() > 0,
        forall|i: int, j: int|
            0 <= i < parts.len() && 0 <= j < parts[i].len() ==> #[trigger] parts[i][j] != ':',
    ensures
        join(parts, ':').len() > 0,
        join(parts, ':')[0] != ':',
        join(parts, ':').last() != ':',
        forall|k: int|
            0 <= k < join(parts, ':').len() - 1 ==> !(#[trigger] join(parts, ':')[k] == ':' && join(
                parts,
                ':',
            )[k + 1] == ':'),
    decreases parts.len(),
{
    let text = join(parts, ':');
    let n = parts.len() - 1;
    assert(parts[n].len() > 0);
    if parts.len() == 1 {
        assert forall|k: int| 0 <= k < text.len() - 1 implies !(#[trigger] text[k] == ':' && text[k
            + 1] == ':') by {
            assert(parts[0][k] != ':');
        }
        assert(parts[0][0] != ':');
        assert(parts[0][text.len() - 1] != ':');
    } else {
        let front = parts.drop_last();
        let head = join(front, ':');
        let last = parts[n];
        assert forall|i: int| 0 <= i < front.len() implies (#[trigger] front[i]).len() > 0 by {
            assert(front[i] == parts[i]);
        }
        assert forall|i: int, j: int| 0 <= i < front.len() && 0 <= j < front[i].len() implies
            #[trigger] front[i][j] != ':' by {
            assert(front[i] == parts[i]);
            assert(parts[i][j] != ':');
        }
        lemma_no_double_colon(front);
        assert(text =~= head.push(':') + last);
        assert(parts[n][last.len() - 1] != ':');
        assert(text.last() == last[last.len() - 1]);
        assert(text[0] == head[0]);
        assert forall|k: int| 0 <= k < text.len() - 1 implies !(#[trigger] text[k] == ':' && text[k
            + 1] == ':') by {
            if k < head.len() - 1 {
                assert(text[k] == head[k] && text[k + 1] == head[k + 1]);
            } else if k == head.len() - 1 {
                assert(text[k] == head[k]);
                assert(head.last() == head[k]);
            } else {
                assert(text[k + 1] == last[k - head.len()]);
                assert(parts[n][k - head.len()] != ':');
            }
        }
    }
}

/// A double colon is found where it first stands.
proof fn lemma_double_colon(s: Seq<char>, from: int, k: int)
    requires
        0 <= from <= k <= s.len(),
        forall|i: int| from <= i < k && i + 1 < s.len() ==> !(#[trigger] s[i] == ':' && s[i + 1] == ':'),
        k == s.len() || (k + 1 < s.len() && s[k] == ':' && s[k + 1] == ':'),
    ensures
        double_colon(s, from) == k,
    decreases k - from,
{
    if from < k && from + 1 < s.len() {
        assert(!(s[from] == ':' && s[from + 1] == ':'));
        lemma_double_colon(s, from + 1, k);
    }
}

/// Eight groups with colons between them are a version 6 address, each group
/// two octets, high one first.
pub proof fn law_v6_full(parts: Seq<Seq<char>>)
    requires
        parts.len() == 8,
        forall|i: int| 0 <= i < 8 ==> group(#[trigger] parts[i]) is Some,
    ensures
        ({
            let octets = v6_octets(join(parts, ':'));
            &&& octets is Some
            &&& octets->0.len() == 16
            &&& forall|i: int|
                0 <= i < 8 ==> octets->0[2 * i] * 256 + octets->0[2 * i + 1] == group(
                    #[trigger] parts[i],
                )->0
        }),
{
    let s = join(parts, ':');
    assert forall|i: int, j: int| 0 <= i < parts.len() && 0 <= j < parts[i].len() implies
        #[trigger] parts[i][j] != ':' by {
        lemma_group_chars(parts[i], j);
    }
    assert forall|i: int| 0 <= i < parts.len() implies (#[trigger] parts[i]).len() > 0 by {
        assert(group(parts[i]) is Some);
    }
    lemma_no_double_colon(parts);
    lemma_double_colon(s, 0, s.len() as int);
    crate::text::lemma_split_join(parts, ':');
    lemma_groups_read(parts, true);
}

/// A double colon stands for as many zero groups as it takes, at least one:
/// the groups before it are the front of the address, and those behind it the
/// back.
pub proof fn law_v6_shortened(front: Seq<Seq<char>>, back: Seq<Seq<char>>)
    requires
        front.len() + back.len() <= 7,
        forall|i: int| 0 <= i < front.len() ==> group(#[trigger] front[i]) is Some,
        forall|i: int| 0 <= i < back.len() ==> group(#[trigger] back[i]) is Some,
    ensures
        ({
            let octets = v6_octets(join(front, ':') + seq![':', ':'] + join(back, ':'));
            let gap = 16 - 2 * back.len();
            &&& octets is Some
            &&& octets->0.len() == 16
            &&& forall|i: int|
                0 <= i < front.len() ==> octets->0[2 * i] * 256 + octets->0[2 * i + 1] == group(
                    #[trigger] front[i],
                )->0
            &&& forall|k: int| 2 * front.len() <= k < gap ==> #[trigger] octets->0[k] == 0
            &&& forall|i: int|
                0 <= i < back.len() ==> octets->0[gap + 2 * i] * 256 + octets->0[gap + 2 * i + 1]
                    == group(#[trigger] back[i])->0
        }),
{
    let head = join(front, ':');
    let tail = join(back, ':');
    let s = head + seq![':', ':'] + tail;
    let cut = head.len() as int;
    lemma_side_read(front, false);
    lemma_side_read(back, true);
    assert(s[cut] == ':' && s[cut + 1] == ':');
    assert forall|i: int| 0 <= i < cut && i + 1 < s.len() implies !(#[trigger] s[i] == ':' && s[i
        + 1] == ':') by {
        assert(s[i] == head[i]);
        if i + 1 < cut {
            assert(s[i + 1] == head[i + 1]);
            assert(!(head[i] == ':' && head[i + 1] == ':'));
        } else {
            assert(head.last() == head[i]);
        }
    }
    lemma_double_colon(s, 0, cut);
    assert(s.take(cut) =~= head);
    assert(s.skip(cut + 2) =~= tail);
    let a = side_octets(head, false)->0;
    let b = side_octets(tail, true)->0;
    let all = v6_octets(s)->0;
    let gap = 16 - 2 * back.len();
    assert(all.len() == 16);
    assert forall|i: int| 0 <= i < front.len() implies all[2 * i] * 256 + all[2 * i + 1] == group(
        #[trigger] front[i],
    )->0 by {
        assert(all[2 * i] == a[2 * i] && all[2 * i + 1] == a[2 * i + 1]);
    }
    assert forall|i: int| 0 <= i < back.len() implies all[gap + 2 * i] * 256 + all[gap + 2 * i + 1]
        == group(#[trigger] back[i])->0 by {
        assert(all[gap + 2 * i] == b[2 * i] && all[gap + 2 * i + 1] == b[2 * i + 1]);
    }
}

/// The groups on one side of a double colon, where there may be none.
proof fn lemma_side_read(parts: Seq<Seq<char>>, dotted: bool)
    requires
        forall|i: int| 0 <= i < parts.len() ==> group(#[trigger] parts[i]) is Some,
    ensures
        side_octets(join(parts, ':'), dotted) is Some,
        side_octets(join(parts, ':'), dotted)->0.len() == 2 * parts.len(),
        forall|i: int|
            0 <= i < parts.len() ==> side_octets(join(parts, ':'), dotted)->0[2 * i] * 256
                + side_octets(join(parts, ':'), dotted)->0[2 * i + 1] == group(#[trigger] parts[i])->0,
        parts.len() > 0 ==> join(parts, ':').len() > 0 && join(parts, ':').last() != ':',
        forall|k: int|
            0 <= k < join(parts, ':').len() - 1 ==> !(#[trigger] join(parts, ':')[k] == ':' && join(
                parts,
                ':',
            )[k + 1] == ':'),
        parts.len() == 0 ==> join(parts, ':').len() == 0,
{
    assert forall|i: int, j: int| 0 <= i < parts.len() && 0 <= j < parts[i].len() implies
        #[trigger] parts[i][j] != ':' by {
        lemma_group_chars(parts[i], j);
    }
    assert forall|i: int| 0 <= i < parts.len() implies (#[trigger] parts[i]).len() > 0 by {
        assert(group(parts[i]) is Some);
    }
    if parts.len() > 0 {
        lemma_no_double_colon(parts);
        crate::text::lemma_split_join(parts, ':');
        lemma_groups_read(parts, dotted);
    }
}

/// The last two of the eight groups may be written as a dotted address.
pub proof fn law_v6_dotted_end(parts: Seq<Seq<char>>, end: Seq<char>)
    requires
        parts.len() == 6,
        forall|i: int| 0 <= i < 6 ==> group(#[trigger] parts[i]) is Some,
        v4_octets(end) is Some,
    ensures
        ({
            let octets = v6_octets(join(parts.push(end), ':'));
            &&& octets is Some
            &&& octets->0.len() == 16
            &&& forall|i: int|
                0 <= i < 6 ==> octets->0[2 * i] * 256 + octets->0[2 * i + 1] == group(
                    #[trigger] parts[i],
                )->0
            &&& octets->0.skip(12) == v4_octets(end)->0
        }),
{
    let all = parts.push(end);
    let s = join(all, ':');
    let o = v4_octets(end)->0;
    law_v4_is_dotted(end, o);
    let spelled = seq![
        decimal(o[0] as nat),
        decimal(o[1] as nat),
        decimal(o[2] as nat),
        decimal(o[3] as nat),
    ];
    lemma_dotted_chars(o);
    assert(end == join(spelled, '.'));
    assert forall|i: int, j: int| 0 <= i < all.len() && 0 <= j < all[i].len() implies
        #[trigger] all[i][j] != ':' by {
        if i < 6 {
            assert(all[i] == parts[i]);
            lemma_group_chars(parts[i], j);
        }
    }
    assert forall|i: int| 0 <= i < all.len() implies (#[trigger] all[i]).len() > 0 by {
        if i < 6 {
            assert(group(parts[i]) is Some);
        }
    }
    lemma_no_double_colon(all);
    lemma_double_colon(s, 0, s.len() as int);
    crate::text::lemma_split_join(all, ':');
    lemma_groups_read(parts, false);
    assert(all.drop_last() =~= parts);
    let k = choose|k: int| 0 <= k < end.len() && end[k] == '.';
    if group(end) is Some {
        lemma_group_chars(end, k);
    }
    let head = group_octets(parts, false)->0;
    assert(v6_octets(s) == Some(head + o));
    assert((head + o).skip(12) =~= o);
    assert forall|i: int| 0 <= i < 6 implies (head + o)[2 * i] * 256 + (head + o)[2 * i + 1]
        == group(#[trigger] parts[i])->0 by {
        assert((head + o)[2 * i] == head[2 * i] && (head + o)[2 * i + 1] == head[2 * i + 1]);
    }
}

/// A dotted address has digits and dots, and at least one of each.
proof fn lemma_dotted_chars(o: Seq<u8>)
    requires
        o.len() == 4,
    ensures
        ({
            let s = join(
                seq![
                    decimal(o[0] as nat),
                    decimal(o[1] as nat),
                    decimal(o[2] as nat),
                    decimal(o[3] as nat),
                ],
                '.',
            );
            &&& s.len() > 0
            &&& forall|j: int| 0 <= j < s.len() ==> ('0' <= #[trigger] s[j] <= '9' || s[j] == '.')
            &&& exists|k: int| 0 <= k < s.len() && #[trigger] s[k] == '.'
        }),
{
    let a = decimal(o[0] as nat);
    let b = decimal(o[1] as nat);
    let c = decimal(o[2] as nat);
    let d = decimal(o[3] as nat);
    crate::text::lemma_decimal_digits(o[0] as nat);
    crate::text::lemma_decimal_digits(o[1] as nat);
    crate::text::lemma_decimal_digits(o[2] as nat);
    crate::text::lemma_decimal_digits(o[3] as nat);
    let four = seq![a, b, c, d];
    let three = seq![a, b, c];
    let two = seq![a, b];
    let one = seq![a];
    assert(four.drop_last() =~= three);
    assert(three.drop_last() =~= two);
    assert(two.drop_last() =~= one);
    assert(join(one, '.') == a);
    assert(join(two, '.') == a.push('.') + b);
    assert(join(three, '.') == (a.push('.') + b).push('.') + c);
    let s = join(four, '.');
    assert(s =~= ((a.push('.') + b).push('.') + c).push('.') + d);
    assert(s[a.len() as int] == '.');
}

/// Every address that is read has its four or sixteen octets.
pub proof fn law_address_width(s: Seq<char>)
    ensures
        v4_octets(s) matches Some(octets) ==> octets.len() == 4,
        v6_octets(s) matches Some(octets) ==> octets.len() == 16,
{
}

/// A dotted address, a colon and a port in decimal are a socket address; a
/// text without a colon is none.
pub proof fn law_v4_endpoint(octets: Seq<u8>, port: u16, other: Seq<char>)
    requires
        octets.len() == 4,
        forall|i: int| 0 <= i < other.len() ==> #[trigger] other[i] != ':',
    ensures
        endpoint(
            join(
                seq![
                    decimal(octets[0] as nat),
                    decimal(octets[1] as nat),
                    decimal(octets[2] as nat),
                    decimal(octets[3] as nat),
                ],
                '.',
            ) + seq![':'] + decimal(port as nat),
        ) == Some((octets, port, 0u32)),
        endpoint(other) is None,
{
    let ip = join(
        seq![
            decimal(octets[0] as nat),
            decimal(octets[1] as nat),
            decimal(octets[2] as nat),
            decimal(octets[3] as nat),
        ],
        '.',
    );
    let s = ip + seq![':'] + decimal(port as nat);
    lemma_dotted_chars(octets);
    let cut = ip.len() as int;
    assert(s[cut] == ':');
    assert forall|i: int| 0 <= i < cut implies s[i] != ':' by {
        assert(s[i] == ip[i]);
    }
    assert(s[0] == ip[0]);
    crate::text::lemma_index_from(s, ':', 0, cut);
    assert(s.take(cut) =~= ip);
    assert(s.skip(cut + 1) =~= decimal(port as nat));
    law_v4_is_dotted(ip, octets);
    law_decimal_reads_back(port as nat);
    crate::text::lemma_decimal_digits(port as nat);
    crate::text::law_index_is_first(other, ':', 0);
    if other.len() > 0 && other[0] == '[' {
        let close = index_from(other, ']', 0);
        crate::text::law_index_is_first(other, ']', 0);
        if close + 1 < other.len() {
            assert(other[close + 1] != ':');
        }
    }
}

/// A version 6 address in square brackets, a colon and a port in decimal are
/// a socket address; a number behind a percent sign is its scope.
pub proof fn law_v6_endpoint(ip: Seq<char>, scope_id: u32, port: u16)
    requires
        v6_octets(ip) is Some,
        forall|i: int| 0 <= i < ip.len() ==> #[trigger] ip[i] != ']' && ip[i] != '%',
    ensures
        endpoint(seq!['['] + ip + seq![']', ':'] + decimal(port as nat)) == Some(
            (v6_octets(ip)->0, port, 0u32),
        ),
        endpoint(
            seq!['['] + (ip + seq!['%'] + decimal(scope_id as nat)) + seq![']', ':'] + decimal(
                port as nat,
            ),
        ) == Some((v6_octets(ip)->0, port, scope_id)),
{
    let scope = decimal(scope_id as nat);
    crate::text::lemma_decimal_digits(scope_id as nat);
    law_decimal_reads_back(scope_id as nat);
    let none: Seq<char> = Seq::empty();
    let scoped = ip + seq!['%'] + scope;
    assert forall|i: int| 0 <= i < scoped.len() implies #[trigger] scoped[i] != ']' by {
        if i < ip.len() {
            assert(scoped[i] == ip[i]);
        } else if i > ip.len() {
            assert(scoped[i] == scope[i - ip.len() - 1]);
        }
    }
    lemma_bracketed(ip, port);
    lemma_bracketed(scoped, port);
    crate::text::law_index_is_first(ip, '%', 0);
    assert(ip.take(ip.len() as int) =~= ip);
    assert(scoped[ip.len() as int] == '%');
    assert forall|i: int| 0 <= i < ip.len() implies scoped[i] != '%' by {
        assert(scoped[i] == ip[i]);
    }
    crate::text::lemma_index_from(scoped, '%', 0, ip.len() as int);
    assert(scoped.take(ip.len() as int) =~= ip);
    assert(scoped.skip(ip.len() as int + 1) =~= scope);
}

/// What stands in the brackets, and the port behind them.
proof fn lemma_bracketed(inner: Seq<char>, port: u16)
    requires
        forall|i: int| 0 <= i < inner.len() ==> #[trigger] inner[i] != ']',
    ensures
        ({
            let s = seq!['['] + inner + seq![']', ':'] + decimal(port as nat);
            let close = index_from(s, ']', 0);
            &&& s.len() > 0
            &&& s[0] == '['
            &&& close + 1 < s.len()
            &&& s[close + 1] == ':'
            &&& s.subrange(1, close) == inner
            &&& decimal_value(s.skip(close + 2), 0xffff) == Some(port as int)
        }),
{
    let s = seq!['['] + inner + seq![']', ':'] + decimal(port as nat);
    let close = inner.len() as int + 1;
    assert(s[close] == ']');
    assert forall|i: int| 0 <= i < close implies s[i] != ']' by {
        if i > 0 {
            assert(s[i] == inner[i - 1]);
        }
    }
    crate::text::lemma_index_from(s, ']', 0, close);
    assert(s.subrange(1, close) =~= inner);
    assert(s.skip(close + 2) =~= decimal(port as nat));
    law_decimal_reads_back(port as nat);
    crate::text::lemma_decimal_digits(port as nat);
}

/// The octets of an address are those it is made of; there are four of
/// version 4 and sixteen of version 6, and a socket address is these with its
/// port and scope.
pub proof fn law_octets_are_own(addr: SocketAddr)
    ensures
        match addr.ip {
            IpAddr::V4(o) => octets_of(addr.ip) == o@ && octets_of(addr.ip).len() == 4,
            IpAddr::V6(o) => octets_of(addr.ip) == o@ && octets_of(addr.ip).len() == 16,
        },
        endpoint_of(addr).0 == octets_of(addr.ip),
        endpoint_of(addr).1 == addr.port,
        endpoint_of(addr).2 == addr.scope_id,
{
}

/// A number in decimal has at least one digit and digits only, and is at most
/// the given one.
pub proof fn law_decimal_value_exactly(s: Seq<char>, max: int, v: int)
    ensures
        decimal_value(s, max) == Some(v) <==> s.len() > 0 && number_in(s, 10) == Some(v) && v <= max,
{
}

/// Whether the parts are groups, but for a dotted address at the end where
/// that may be.
proof fn lemma_groups_only(parts: Seq<Seq<char>>, dotted: bool, i: int)
    requires
        group_octets(parts, dotted) is Some,
        0 <= i < parts.len(),
    ensures
        group(parts[i]) is Some || (dotted && i == parts.len() - 1 && v4_octets(parts[i]) is Some),
        group_octets(parts, dotted)->0.len() == 2 * parts.len() || (dotted && v4_octets(
            parts.last(),
        ) is Some && group_octets(parts, dotted)->0.len() == 2 * parts.len() + 2),
    decreases parts.len(),
{
    let front = parts.drop_last();
    if i < parts.len() - 1 {
        lemma_groups_only(front, false, i);
        assert(front[i] == parts[i]);
    } else if front.len() > 0 {
        lemma_groups_only(front, false, 0);
    }
}

/// A text that is read as a version 6 address has groups between its colons
/// and nothing else, but for a dotted address at its end: eight without a
/// double colon, where the dotted address stands for two, and at most seven on
/// both sides of one.
pub proof fn law_v6_only(s: Seq<char>, i: int)
    requires
        v6_octets(s) is Some,
    ensures
        ({
            let cut = double_colon(s, 0);
            let whole = split(s, ':');
            let front = split(s.take(cut), ':');
            let back = split(s.skip(cut + 2), ':');
            &&& cut >= s.len() ==> {
                &&& 0 <= i < whole.len() ==> group(whole[i]) is Some || (i == whole.len() - 1
                    && v4_octets(whole[i]) is Some)
                &&& whole.len() == 8 || (whole.len() == 7 && v4_octets(whole[6]) is Some)
            }
            &&& cut < s.len() ==> {
                &&& cut + 1 < s.len() && s[cut] == ':' && s[cut + 1] == ':'
                &&& cut > 0 && 0 <= i < front.len() ==> group(front[i]) is Some
                &&& cut + 2 < s.len() && 0 <= i < back.len() ==> group(back[i]) is Some || (i
                    == back.len() - 1 && v4_octets(back[i]) is Some)
                &&& (if cut > 0 {
                    front.len()
                } else {
                    0
                }) + (if cut + 2 < s.len() {
                    back.len()
                } else {
                    0
                }) <= 7
            }
        }),
{
    let cut = double_colon(s, 0);
    lemma_double_colon_found(s, 0);
    if cut >= s.len() {
        let whole = split(s, ':');
        crate::text::lemma_split_parts(s, ':');
        lemma_groups_only(whole, true, 0);
        if 0 <= i < whole.len() {
            lemma_groups_only(whole, true, i);
        }
    } else {
        let front = split(s.take(cut), ':');
        let back = split(s.skip(cut + 2), ':');
        crate::text::lemma_split_parts(s.take(cut), ':');
        crate::text::lemma_split_parts(s.skip(cut + 2), ':');
        if cut > 0 {
            lemma_groups_only(front, false, 0);
            if 0 <= i < front.len() {
                lemma_groups_only(front, false, i);
            }
        }
        if cut + 2 < s.len() {
            lemma_groups_only(back, true, 0);
            if 0 <= i < back.len() {
                lemma_groups_only(back, true, i);
            }
        }
    }
}

proof fn lemma_double_colon_found(s: Seq<char>, from: int)
    requires
        0 <= from <= s.len(),
    ensures
        from <= double_colon(s, from) <= s.len(),
        double_colon(s, from) < s.len() ==> double_colon(s, from) + 1 < s.len() && s[double_colon(
            s,
            from,
        )] == ':' && s[double_colon(s, from) + 1] == ':',
        forall|k: int|
            from <= k < double_colon(s, from) && k + 1 < s.len() ==> !(#[trigger] s[k] == ':' && s[k
                + 1] == ':'),
    decreases s.len() - from,
{
    if from + 1 < s.len() && !(s[from] == ':' && s[from + 1] == ':') {
        lemma_double_colon_found(s, from + 1);
    }
}

/// The double colon that counts is the first, and there is none where it is
/// at the end.
pub proof fn law_double_colon_is_first(s: Seq<char>, k: int)
    ensures
        0 <= double_colon(s, 0) <= s.len(),
        double_colon(s, 0) < s.len() ==> double_colon(s, 0) + 1 < s.len() && s[double_colon(s, 0)]
            == ':' && s[double_colon(s, 0) + 1] == ':',
        0 <= k < double_colon(s, 0) && k + 1 < s.len() ==> !(s[k] == ':' && s[k + 1] == ':'),
{
    lemma_double_colon_found(s, 0);
}

/// A text that is read as a socket address is an address, a colon and a port
/// in decimal, of version 4 where it does not begin with a bracket and of
/// version 6 where it does.
pub proof fn law_endpoint_only(s: Seq<char>)
    requires
        endpoint(s) is Some,
    ensures
        ({
            let (octets, port, scope_id) = endpoint(s)->0;
            &&& s.len() > 0
            &&& s[0] != '[' ==> octets.len() == 4 && scope_id == 0 && exists|cut: int|
                0 <= cut < s.len() - 1 && #[trigger] s[cut] == ':' && v4_octets(s.take(cut)) == Some(
                    octets,
                ) && number_in(s.skip(cut + 1), 10) == Some(port as int)
            &&& s[0] == '[' ==> octets.len() == 16 && exists|close: int|
                0 < close < s.len() - 2 && #[trigger] s[close] == ']' && s[close + 1] == ':'
                    && number_in(s.skip(close + 2), 10) == Some(port as int)
        }),
{
    crate::text::law_index_is_first(s, ':', 0);
    crate::text::law_index_is_first(s, ']', 0);
    if s.len() > 0 && s[0] == '[' {
        let close = index_from(s, ']', 0);
        assert(s[close] == ']');
        lemma_number_bound(s.skip(close + 2), 10);
    } else {
        let cut = index_from(s, ':', 0);
        assert(s[cut] == ':');
        lemma_number_bound(s.skip(cut + 1), 10);
    }
}


} // verus!
