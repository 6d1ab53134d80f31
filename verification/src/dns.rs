//! The native name-lookup protocol.
//!
//! It has the shape of DNS (a fixed header, a question, answers of the
//! familiar record types) but it does not interoperate with it: every label
//! travels as its raw UTF-8 bytes, never in an ASCII-compatible encoding.
//!
//! A message has one question. A question's name is not compressed; an
//! answer's name is a pointer back to the question.

use vstd::prelude::*;
use vstd::utf8::{decode_utf8, encode_utf8, valid_utf8};
use crate::address::{decimal_value, parse_v4, parse_v6, read_decimal, v4_octets, v6_octets};
use crate::bytes::{
    be16, be32, bytes_between, push_be16, push_be32, push_bytes, read_be16, utf8_text, value16,
};
use crate::domain::{
    labels_of, name_refused, valid_name, DomainName, DomainNameError,
};
use crate::fcrdns::{answers_at, answers_in, name_at, questions_end};
use crate::text::{
    chars_of, decimal, find_char, index_from, join, join_text, string_between, texts,
};
use crate::zone::{Record, RecordType};

verus! {

const TYPE_A: u16 = 1;
const TYPE_NS: u16 = 2;
const TYPE_CNAME: u16 = 5;
const TYPE_MX: u16 = 15;
const TYPE_TXT: u16 = 16;
const TYPE_AAAA: u16 = 28;
/// The query type that asks for records of any type.
const QTYPE_ANY: u16 = 255;

const CLASS_IN: u16 = 1;

/// The response code for a name that does not exist.
const RCODE_NXDOMAIN: u16 = 3;
/// The response code for a malformed request.
const RCODE_FORMERR: u16 = 1;

/// Why a message or a record could not be used.
#[derive(Debug, PartialEq, Eq)]
pub enum DnsError {
    /// The message is shorter than a header.
    TooShort,
    /// The message does not have exactly one question.
    UnsupportedQuestionCount,
    /// A name is cut off, compressed, or has a label that is too long; or a
    /// record's value is no address.
    MalformedLabel,
    /// A label is not UTF-8.
    InvalidUtf8,
    /// The labels do not make a domain name.
    InvalidDomain(DomainNameError),
}

/// A parsed query.
#[derive(Debug, PartialEq, Eq)]
pub struct DnsQuery {
    pub id: u16,
    pub domain: DomainName,
    pub qtype: u16,
    pub qclass: u16,
}

// ---------------------------------------------------------------------
// What a question says
// ---------------------------------------------------------------------

/// The contents of a question.
pub struct Question {
    pub id: u16,
    pub name: Seq<char>,
    pub qtype: u16,
    pub qclass: u16,
}

impl View for DnsQuery {
    type V = Question;

    open spec fn view(&self) -> Question {
        Question { id: self.id, name: self.domain@, qtype: self.qtype, qclass: self.qclass }
    }
}

/// The reason why `s` is no domain name.
pub open spec fn refusal(s: Seq<char>) -> DomainNameError {
    choose|e: DomainNameError| name_refused(s, e)
}

/// The labels from `pos` on up to the empty one, and the position behind it.
/// A label is a length of at most 63 and as many bytes of UTF-8.
pub open spec fn labels_at(bytes: Seq<u8>, pos: int) -> Result<(Seq<Seq<char>>, int), DnsError>
    decreases bytes.len() - pos,
{
    if pos < 0 || pos >= bytes.len() {
        Err(DnsError::MalformedLabel)
    } else {
        let len = bytes[pos] as int;
        let end = pos + 1 + len;
        if len == 0 {
            Ok((Seq::empty(), pos + 1))
        } else if len > 63 || end > bytes.len() {
            Err(DnsError::MalformedLabel)
        } else if !valid_utf8(bytes.subrange(pos + 1, end)) {
            Err(DnsError::InvalidUtf8)
        } else {
            match labels_at(bytes, end) {
                Err(e) => Err(e),
                Ok((rest, next)) => Ok(
                    (seq![decode_utf8(bytes.subrange(pos + 1, end))] + rest, next),
                ),
            }
        }
    }
}

/// The question of a message.
pub open spec fn question_in(bytes: Seq<u8>) -> Result<Question, DnsError> {
    if bytes.len() < 12 {
        Err(DnsError::TooShort)
    } else if value16(bytes, 4) != 1 {
        Err(DnsError::UnsupportedQuestionCount)
    } else {
        match labels_at(bytes, 12) {
            Err(e) => Err(e),
            Ok((labels, pos)) => {
                let name = join(labels, '.');
                if pos + 4 > bytes.len() {
                    Err(DnsError::MalformedLabel)
                } else if !valid_name(name) {
                    Err(DnsError::InvalidDomain(refusal(name)))
                } else {
                    Ok(
                        Question {
                            id: value16(bytes, 0),
                            name,
                            qtype: value16(bytes, pos),
                            qclass: value16(bytes, pos + 2),
                        },
                    )
                }
            },
        }
    }
}

// ---------------------------------------------------------------------
// What a response says
// ---------------------------------------------------------------------

/// The type code of a record.
pub open spec fn type_code(record_type: RecordType) -> u16 {
    match record_type {
        RecordType::A => 1,
        RecordType::Aaaa => 28,
        RecordType::Cname => 5,
        RecordType::Mx => 15,
        RecordType::Txt => 16,
        RecordType::Ns => 2,
    }
}

/// Labels as they travel, without the closing empty one; `None` where a
/// label has more than 63 bytes.
pub open spec fn label_bytes(labels: Seq<Seq<char>>) -> Option<Seq<u8>>
    decreases labels.len(),
{
    if labels.len() == 0 {
        Some(Seq::empty())
    } else {
        let last = encode_utf8(labels.last());
        match label_bytes(labels.drop_last()) {
            Some(front) if last.len() <= 63 => Some(front.push(last.len() as u8) + last),
            _ => None,
        }
    }
}

/// A name as it travels.
pub open spec fn name_bytes(name: Seq<char>) -> Option<Seq<u8>> {
    match label_bytes(labels_of(name)) {
        Some(bytes) => Some(bytes.push(0)),
        None => None,
    }
}

/// A name in a record's value, as it travels.
pub open spec fn target_bytes(name: Seq<char>) -> Result<Seq<u8>, DnsError> {
    if !valid_name(name) {
        Err(DnsError::InvalidDomain(refusal(name)))
    } else {
        match name_bytes(name) {
            Some(bytes) => Ok(bytes),
            None => Err(DnsError::MalformedLabel),
        }
    }
}

/// A sixteen-bit number in decimal, with an optional plus sign.
pub open spec fn preference_value(s: Seq<char>) -> Option<u16> {
    let body = if s.len() > 0 && s[0] == '+' {
        s.skip(1)
    } else {
        s
    };
    match decimal_value(body, 0xffff) {
        Some(v) => Some(v as u16),
        None => None,
    }
}

/// The preference and the host of a mail exchange record: the text before
/// and behind the first space where the former is a number, else zero and
/// the whole text.
pub open spec fn mail_exchange(value: Seq<char>) -> (u16, Seq<char>) {
    let cut = index_from(value, ' ', 0);
    if cut < value.len() {
        match preference_value(value.take(cut)) {
            Some(preference) => (preference, value.skip(cut + 1)),
            None => (0, value),
        }
    } else {
        (0, value)
    }
}

/// Bytes as character strings of up to 255 bytes, each behind its length.
pub open spec fn text_chunks(bytes: Seq<u8>) -> Seq<u8>
    decreases bytes.len(),
{
    if bytes.len() == 0 {
        Seq::empty()
    } else if bytes.len() <= 255 {
        seq![bytes.len() as u8] + bytes
    } else {
        seq![255u8] + bytes.take(255) + text_chunks(bytes.skip(255))
    }
}

/// The data of a record as it travels.
pub open spec fn rdata(record: Record) -> Result<Seq<u8>, DnsError> {
    match record.record_type {
        RecordType::A => match v4_octets(record.value@) {
            Some(octets) => Ok(octets),
            None => Err(DnsError::MalformedLabel),
        },
        RecordType::Aaaa => match v6_octets(record.value@) {
            Some(octets) => Ok(octets),
            None => Err(DnsError::MalformedLabel),
        },
        RecordType::Cname | RecordType::Ns => target_bytes(record.value@),
        RecordType::Mx => {
            let (preference, host) = mail_exchange(record.value@);
            match target_bytes(host) {
                Ok(bytes) => Ok(be16(preference) + bytes),
                Err(e) => Err(e),
            }
        },
        RecordType::Txt => Ok(text_chunks(encode_utf8(record.value@))),
    }
}

/// One answer: a pointer to the question's name, type, class, time to live,
/// and the data behind its length.
pub open spec fn answer_bytes(record: Record, data: Seq<u8>) -> Seq<u8> {
    seq![0xC0u8, 0x0Cu8] + be16(type_code(record.record_type)) + be16(1) + be32(record.ttl_secs)
        + be16((data.len() % 0x1_0000) as u16) + data
}

/// The answers for `records`, in order. A record whose data cannot be encoded
/// has none.
pub open spec fn answers_bytes(records: Seq<Record>) -> Seq<u8>
    decreases records.len(),
{
    if records.len() == 0 {
        Seq::empty()
    } else {
        let front = answers_bytes(records.drop_last());
        match rdata(records.last()) {
            Ok(data) => front + answer_bytes(records.last(), data),
            Err(_) => front,
        }
    }
}

/// How many answers there are for `records`.
pub open spec fn answer_count(records: Seq<Record>) -> nat
    decreases records.len(),
{
    if records.len() == 0 {
        0
    } else {
        answer_count(records.drop_last()) + if rdata(records.last()) is Ok {
            1nat
        } else {
            0nat
        }
    }
}

/// A response header with one question: the authoritative flag, a response
/// code, and the number of answers.
pub open spec fn response_header(id: u16, exists: bool, answers: nat) -> Seq<u8> {
    be16(id) + be16(
        if exists {
            0x8400
        } else {
            0x8403
        },
    ) + be16(1) + be16((answers % 0x1_0000) as u16) + be16(0) + be16(0)
}

/// The response that reports a malformed request.
pub open spec fn format_error_bytes(id: u16) -> Seq<u8> {
    be16(id) + be16(0x8001) + seq![0u8, 0, 0, 0, 0, 0, 0, 0]
}

/// The response to a question.
pub open spec fn response_bytes(q: Question, exists: bool, records: Seq<Record>) -> Seq<u8> {
    match name_bytes(q.name) {
        None => format_error_bytes(q.id),
        Some(name) => response_header(q.id, exists, answer_count(records)) + name + be16(q.qtype)
            + be16(q.qclass) + answers_bytes(records),
    }
}

// ---------------------------------------------------------------------
// Reading a query
// ---------------------------------------------------------------------

impl DnsError {
    /// The message for people.
    pub open spec fn message(self) -> Seq<char> {
        match self {
            DnsError::TooShort => "message shorter than a header"@,
            DnsError::UnsupportedQuestionCount =>
                "message does not contain exactly one question"@,
            DnsError::MalformedLabel => "malformed domain name label in message"@,
            DnsError::InvalidUtf8 => "label is not valid UTF-8"@,
            DnsError::InvalidDomain(e) => "decoded domain name is invalid: "@ + e.message(),
        }
    }

    /// The message for people.
    pub fn to_string(&self) -> (r: String)
        ensures
            r@ == self.message(),
    {
        match self {
            DnsError::TooShort => "message shorter than a header".to_owned(),
            DnsError::UnsupportedQuestionCount =>
                "message does not contain exactly one question".to_owned(),
            DnsError::MalformedLabel => "malformed domain name label in message".to_owned(),
            DnsError::InvalidUtf8 => "label is not valid UTF-8".to_owned(),
            DnsError::InvalidDomain(e) => {
                let mut out = "decoded domain name is invalid: ".to_owned();
                out.append(e.to_string().as_str());
                out
            },
        }
    }
}

impl Clone for DnsQuery {
    fn clone(&self) -> (r: Self)
        ensures
            r == *self,
    {
        DnsQuery {
            id: self.id,
            domain: self.domain.clone(),
            qtype: self.qtype,
            qclass: self.qclass,
        }
    }
}

/// Validates a name, with the reason as an error of this protocol.
fn checked_name(name: &str) -> (r: Result<DomainName, DnsError>)
    ensures
        match r {
            Ok(domain) => valid_name(name@) && domain@ == name@,
            Err(e) => !valid_name(name@) && e == DnsError::InvalidDomain(refusal(name@)),
        },
{
    match DomainName::new(name) {
        Ok(domain) => Ok(domain),
        Err(e) => {
            proof {
                assert(name_refused(name@, e));
                let f = refusal(name@);
                assert(name_refused(name@, f));
                crate::domain::law_refusal_unique(name@, e, f);
            }
            Err(DnsError::InvalidDomain(e))
        },
    }
}

/// Appending to what is read does not depend on when it is appended.
proof fn lemma_labels_chain(
    done: Seq<Seq<char>>,
    label: Seq<char>,
    rest: Seq<Seq<char>>,
)
    ensures
        done + (seq![label] + rest) == done.push(label) + rest,
{
    assert(done + (seq![label] + rest) =~= done.push(label) + rest);
}

/// Parses the question of a raw message.
pub fn parse_query(bytes: &[u8]) -> (r: Result<DnsQuery, DnsError>)
    ensures
        match r {
            Ok(query) => question_in(bytes@) == Ok::<_, DnsError>(query@),
            Err(e) => question_in(bytes@) == Err::<Question, _>(e),
        },
{
    let len: usize = bytes.len();
    if len < 12 {
        return Err(DnsError::TooShort);
    }
    let id: u16 = read_be16(bytes, 0);
    let qdcount: u16 = read_be16(bytes, 4);
    if qdcount != 1 {
        return Err(DnsError::UnsupportedQuestionCount);
    }
    let mut labels: Vec<String> = Vec::new();
    let mut pos: usize = 12;
    let ghost whole = labels_at(bytes@, 12);
    proof {
        if let Ok((rest, next)) = whole {
            assert(texts(labels@) + rest =~= rest);
        }
    }
    loop
        invariant_except_break
            len == bytes@.len(),
            pos <= len,
            whole == labels_at(bytes@, 12),
            len >= 12,
            value16(bytes@, 4) == 1,
            match labels_at(bytes@, pos as int) {
                Err(e) => whole == Err::<(Seq<Seq<char>>, int), _>(e),
                Ok((rest, next)) => whole == Ok::<_, DnsError>((texts(labels@) + rest, next)),
            },
        ensures
            pos <= len,
            whole == Ok::<_, DnsError>((texts(labels@), pos as int)),
        decreases len - pos,
    {
        if pos >= len {
            return Err(DnsError::MalformedLabel);
        }
        let count: usize = bytes[pos] as usize;
        if count == 0 {
            pos = pos + 1;
            assert(texts(labels@) + Seq::<Seq<char>>::empty() =~= texts(labels@));
            break ;
        }
        if count > 63 {
            return Err(DnsError::MalformedLabel);
        }
        if count > len - pos - 1 {
            return Err(DnsError::MalformedLabel);
        }
        let label = match utf8_text(bytes_between(bytes, pos + 1, pos + 1 + count)) {
            Some(label) => label,
            None => {
                return Err(DnsError::InvalidUtf8);
            },
        };
        let ghost done = texts(labels@);
        let ghost text = label@;
        labels.push(label);
        proof {
            assert(texts(labels@) =~= done.push(text));
            if let Ok((rest, next)) = labels_at(bytes@, pos + 1 + count) {
                lemma_labels_chain(done, text, rest);
            }
        }
        pos = pos + 1 + count;
    }
    if len - pos < 4 {
        return Err(DnsError::MalformedLabel);
    }
    let qtype: u16 = read_be16(bytes, pos);
    let qclass: u16 = read_be16(bytes, pos + 2);
    let name = join_text(&labels, '.');
    match checked_name(name.as_str()) {
        Ok(domain) => Ok(DnsQuery { id, domain, qtype, qclass }),
        Err(e) => Err(e),
    }
}

// ---------------------------------------------------------------------
// Writing a response
// ---------------------------------------------------------------------

fn record_type_code(record_type: RecordType) -> (r: u16)
    ensures
        r == type_code(record_type),
{
    match record_type {
        RecordType::A => TYPE_A,
        RecordType::Aaaa => TYPE_AAAA,
        RecordType::Cname => TYPE_CNAME,
        RecordType::Mx => TYPE_MX,
        RecordType::Txt => TYPE_TXT,
        RecordType::Ns => TYPE_NS,
    }
}

/// A label that is too long spoils the whole name.
proof fn lemma_label_bytes_fail(labels: Seq<Seq<char>>, i: int)
    requires
        0 <= i < labels.len(),
        encode_utf8(labels[i]).len() > 63,
    ensures
        label_bytes(labels) is None,
    decreases labels.len(),
{
    if i < labels.len() - 1 {
        lemma_label_bytes_fail(labels.drop_last(), i);
    }
}

/// Appends a name, or nothing where a label is too long.
fn encode_domain_labels(domain: &DomainName, out: &mut Vec<u8>) -> (r: Result<(), DnsError>)
    ensures
        match r {
            Ok(_) => name_bytes(domain@) is Some && final(out)@ == old(out)@ + name_bytes(
                domain@,
            )->0,
            Err(e) => name_bytes(domain@) is None && e == DnsError::MalformedLabel && final(out)@
                == old(out)@,
        },
{
    let labels = domain.labels();
    let ghost all = labels_of(domain@);
    let mut name: Vec<u8> = Vec::new();
    let mut i: usize = 0;
    assert(all.take(0) =~= Seq::empty());
    while i < labels.len()
        invariant
            all == labels_of(domain@),
            texts(labels@) == all,
            i <= labels@.len(),
            label_bytes(all.take(i as int)) == Some(name@),
            out@ == old(out)@,
        decreases labels.len() - i,
    {
        assert(all.take(i + 1).drop_last() =~= all.take(i as int));
        assert(all[i as int] == labels@[i as int]@);
        let bytes = labels[i].as_str().as_bytes();
        if bytes.len() > 63 {
            proof {
                lemma_label_bytes_fail(all, i as int);
            }
            return Err(DnsError::MalformedLabel);
        }
        name.push(bytes.len() as u8);
        push_bytes(&mut name, bytes);
        i = i + 1;
    }
    assert(all.take(i as int) =~= all);
    name.push(0);
    push_bytes(out, name.as_slice());
    Ok(())
}

/// A name in a record's value, as it travels.
fn encode_target(name: &str) -> (r: Result<Vec<u8>, DnsError>)
    ensures
        match r {
            Ok(bytes) => target_bytes(name@) == Ok::<_, DnsError>(bytes@),
            Err(e) => target_bytes(name@) == Err::<Seq<u8>, _>(e),
        },
{
    match checked_name(name) {
        Ok(target) => {
            let mut buf: Vec<u8> = Vec::new();
            match encode_domain_labels(&target, &mut buf) {
                Ok(_) => {
                    assert(buf@ =~= name_bytes(name@)->0);
                    Ok(buf)
                },
                Err(e) => Err(e),
            }
        },
        Err(e) => Err(e),
    }
}

/// Reads the preference of a mail exchange record.
fn read_preference(chars: &Vec<char>, end: usize) -> (r: Option<u16>)
    requires
        end <= chars@.len(),
    ensures
        r == preference_value(chars@.take(end as int)),
{
    let ghost s = chars@.take(end as int);
    let start: usize = if end > 0 && chars[0] == '+' {
        1
    } else {
        0
    };
    assert(chars@.subrange(start as int, end as int) =~= (if s.len() > 0 && s[0] == '+' {
        s.skip(1)
    } else {
        s
    }));
    match read_decimal(chars, start, end, 0xffff) {
        Some(v) => Some(v as u16),
        None => None,
    }
}

/// Splits the value of a mail exchange record.
fn read_mail_exchange(value: &str) -> (r: (u16, String))
    ensures
        (r.0, r.1@) == mail_exchange(value@),
{
    let chars = chars_of(value);
    let cut: usize = find_char(&chars, ' ');
    if cut < chars.len() {
        match read_preference(&chars, cut) {
            Some(preference) => {
                let host = string_between(&chars, cut + 1, chars.len());
                assert(host@ =~= value@.skip(cut + 1));
                (preference, host)
            },
            None => (0, value.to_owned()),
        }
    } else {
        (0, value.to_owned())
    }
}

/// Bytes as character strings of up to 255 bytes.
fn encode_text(bytes: &[u8]) -> (r: Vec<u8>)
    ensures
        r@ == text_chunks(bytes@),
{
    let mut out: Vec<u8> = Vec::new();
    let len: usize = bytes.len();
    let mut pos: usize = 0;
    assert(bytes@.skip(0) =~= bytes@);
    assert(out@ + text_chunks(bytes@.skip(0)) =~= text_chunks(bytes@));
    while pos < len
        invariant
            pos <= len == bytes@.len(),
            out@ + text_chunks(bytes@.skip(pos as int)) == text_chunks(bytes@),
        decreases len - pos,
    {
        let count: usize = if len - pos < 255 {
            len - pos
        } else {
            255
        };
        let ghost before = out@;
        let ghost tail = bytes@.skip(pos as int);
        out.push(count as u8);
        let chunk = bytes_between(bytes, pos, pos + count);
        push_bytes(&mut out, chunk.as_slice());
        proof {
            let rest = bytes@.skip(pos + count);
            assert(tail.skip(count as int) =~= rest);
            assert(chunk@ =~= tail.take(count as int));
            if tail.len() <= 255 {
                assert(tail.take(count as int) =~= tail);
                assert(rest =~= Seq::empty());
            }
            assert(text_chunks(tail) =~= seq![count as u8] + chunk@ + text_chunks(rest));
            assert(out@ + text_chunks(rest) =~= before + text_chunks(tail));
        }
        pos = pos + count;
    }
    assert(bytes@.skip(pos as int) =~= Seq::empty());
    assert(out@ + text_chunks(bytes@.skip(pos as int)) =~= out@);
    out
}

/// The data of a record as it travels.
fn encode_rdata(record: &Record) -> (r: Result<Vec<u8>, DnsError>)
    ensures
        match r {
            Ok(bytes) => rdata(*record) == Ok::<_, DnsError>(bytes@),
            Err(e) => rdata(*record) == Err::<Seq<u8>, _>(e),
        },
{
    match record.record_type {
        RecordType::A => match parse_v4(record.value.as_str()) {
            Some(octets) => {
                let mut buf: Vec<u8> = Vec::new();
                push_bytes(&mut buf, octets.as_slice());
                assert(buf@ =~= octets@);
                Ok(buf)
            },
            None => Err(DnsError::MalformedLabel),
        },
        RecordType::Aaaa => match parse_v6(record.value.as_str()) {
            Some(octets) => {
                let mut buf: Vec<u8> = Vec::new();
                push_bytes(&mut buf, octets.as_slice());
                assert(buf@ =~= octets@);
                Ok(buf)
            },
            None => Err(DnsError::MalformedLabel),
        },
        RecordType::Cname | RecordType::Ns => encode_target(record.value.as_str()),
        RecordType::Mx => {
            let (preference, host) = read_mail_exchange(record.value.as_str());
            match encode_target(host.as_str()) {
                Ok(target) => {
                    let mut buf: Vec<u8> = Vec::new();
                    push_be16(&mut buf, preference);
                    push_bytes(&mut buf, target.as_slice());
                    assert(buf@ =~= be16(preference) + target@);
                    Ok(buf)
                },
                Err(e) => Err(e),
            }
        },
        RecordType::Txt => Ok(encode_text(record.value.as_str().as_bytes())),
    }
}

/// Appends the answer with a record's data.
fn push_answer(out: &mut Vec<u8>, record: &Record, data: &Vec<u8>)
    ensures
        final(out)@ == old(out)@ + answer_bytes(*record, data@),
{
    out.push(0xC0);
    out.push(0x0C);
    push_be16(out, record_type_code(record.record_type));
    push_be16(out, CLASS_IN);
    push_be32(out, record.ttl_secs);
    let count: u16 = (data.len() % 0x1_0000) as u16;
    push_be16(out, count);
    push_bytes(out, data.as_slice());
    assert(out@ =~= old(out)@ + answer_bytes(*record, data@));
}

/// The answers for `records`, and how many there are.
fn encode_answers(records: &[Record]) -> (r: (Vec<u8>, usize))
    ensures
        r.0@ == answers_bytes(records@),
        r.1 == answer_count(records@),
{
    let mut out: Vec<u8> = Vec::new();
    let mut count: usize = 0;
    let mut i: usize = 0;
    assert(records@.take(0) =~= Seq::empty());
    assert(out@ =~= answers_bytes(records@.take(0)));
    while i < records.len()
        invariant
            i <= records@.len(),
            count <= i,
            out@ == answers_bytes(records@.take(i as int)),
            count == answer_count(records@.take(i as int)),
        decreases records.len() - i,
    {
        assert(records@.take(i + 1).drop_last() =~= records@.take(i as int));
        match encode_rdata(&records[i]) {
            Ok(data) => {
                push_answer(&mut out, &records[i], &data);
                count = count + 1;
            },
            Err(_) => {},
        }
        i = i + 1;
    }
    assert(records@.take(i as int) =~= records@);
    (out, count)
}

/// Builds the response to `query`.
///
/// `domain_exists` says whether the name is registered at all, which decides
/// between a name error and an answer without records. `matching` are the
/// records to return, already filtered by the type that was asked for; one
/// whose data cannot be encoded is left out.
pub fn build_response(query: &DnsQuery, domain_exists: bool, matching: &[Record]) -> (r: Vec<u8>)
    ensures
        r@ == response_bytes(query@, domain_exists, matching@),
{
    let (answers, count): (Vec<u8>, usize) = encode_answers(matching);
    let mut out: Vec<u8> = Vec::new();
    push_be16(&mut out, query.id);
    let flags: u16 = if domain_exists {
        0x8400
    } else {
        0x8400 + RCODE_NXDOMAIN
    };
    push_be16(&mut out, flags);
    push_be16(&mut out, 1);
    push_be16(&mut out, (count % 0x1_0000) as u16);
    push_be16(&mut out, 0);
    push_be16(&mut out, 0);
    assert(out@ =~= response_header(query.id, domain_exists, answer_count(matching@)));
    if encode_domain_labels(&query.domain, &mut out).is_err() {
        return format_error_response(query.id);
    }
    push_be16(&mut out, query.qtype);
    push_be16(&mut out, query.qclass);
    push_bytes(&mut out, answers.as_slice());
    out
}

/// Builds the response that reports a malformed request.
pub fn format_error_response(id: u16) -> (r: Vec<u8>)
    ensures
        r@ == format_error_bytes(id),
{
    let mut out: Vec<u8> = Vec::new();
    push_be16(&mut out, id);
    push_be16(&mut out, 0x8000 + RCODE_FORMERR);
    push_be32(&mut out, 0);
    push_be32(&mut out, 0);
    assert(out@ =~= format_error_bytes(id));
    out
}

/// Whether a record belongs into the answer to a query for `qtype`.
pub fn record_matches_qtype(record: &Record, qtype: u16) -> (r: bool)
    ensures
        r == (qtype == 255 || type_code(record.record_type) == qtype),
{
    qtype == QTYPE_ANY || record_type_code(record.record_type) == qtype
}

// ---------------------------------------------------------------------
// Laws
// ---------------------------------------------------------------------

/// Whether every label fits behind its length.
spec fn labels_short(labels: Seq<Seq<char>>) -> bool {
    forall|i: int| 0 <= i < labels.len() ==> encode_utf8(#[trigger] labels[i]).len() <= 63
}

proof fn lemma_short_labels_encode(labels: Seq<Seq<char>>)
    ensures
        labels_short(labels) <==> label_bytes(labels) is Some,
    decreases labels.len(),
{
    if labels.len() > 0 {
        let front = labels.drop_last();
        lemma_short_labels_encode(front);
        if labels_short(labels) {
            assert forall|i: int| 0 <= i < front.len() implies encode_utf8(#[trigger] front[i]).len()
                <= 63 by {
                assert(front[i] == labels[i]);
            }
        }
        if label_bytes(labels) is Some {
            assert forall|i: int| 0 <= i < labels.len() implies encode_utf8(
                #[trigger] labels[i],
            ).len() <= 63 by {
                if i < front.len() {
                    assert(front[i] == labels[i]);
                }
            }
        }
    }
}

proof fn lemma_read_labels_short(bytes: Seq<u8>, pos: int)
    ensures
        labels_at(bytes, pos) matches Ok((labels, _)) ==> labels_short(labels),
    decreases bytes.len() - pos,
{
    if 0 <= pos < bytes.len() {
        let end = pos + 1 + bytes[pos] as int;
        if 0 < bytes[pos] <= 63 && end <= bytes.len() {
            let label = bytes.subrange(pos + 1, end);
            lemma_read_labels_short(bytes, end);
            if valid_utf8(label) {
                vstd::utf8::decode_utf8_encode_utf8(label);
                if let Ok((rest, next)) = labels_at(bytes, end) {
                    let all = seq![decode_utf8(label)] + rest;
                    assert forall|i: int| 0 <= i < all.len() implies encode_utf8(
                        #[trigger] all[i],
                    ).len() <= 63 by {
                        if i > 0 {
                            assert(all[i] == rest[i - 1]);
                        }
                    }
                }
            }
        }
    }
}

/// Cutting the joined labels again gives no longer ones.
proof fn lemma_rejoined_short(labels: Seq<Seq<char>>)
    requires
        labels_short(labels),
    ensures
        labels_short(labels_of(join(labels, '.'))),
    decreases labels.len(),
{
    let whole = join(labels, '.');
    if labels.len() <= 1 {
        assert forall|i: int| 0 <= i < labels_of(whole).len() implies encode_utf8(
            #[trigger] labels_of(whole)[i],
        ).len() <= 63 by {
            crate::text::lemma_split_bytes(whole, '.', i);
            if labels.len() == 1 {
                assert(encode_utf8(labels[0]).len() <= 63);
            }
        }
    } else {
        let front = labels.drop_last();
        assert forall|i: int| 0 <= i < front.len() implies encode_utf8(#[trigger] front[i]).len()
            <= 63 by {
            assert(front[i] == labels[i]);
        }
        lemma_rejoined_short(front);
        let a = join(front, '.');
        let b = labels.last();
        crate::text::lemma_split_concat(a, b, '.');
        assert(encode_utf8(labels[labels.len() - 1]).len() <= 63);
        assert forall|i: int| 0 <= i < labels_of(whole).len() implies encode_utf8(
            #[trigger] labels_of(whole)[i],
        ).len() <= 63 by {
            let left = labels_of(a).len();
            if i < left {
                assert(labels_of(whole)[i] == labels_of(a)[i]);
            } else {
                assert(labels_of(whole)[i] == labels_of(b)[i - left]);
                crate::text::lemma_split_bytes(b, '.', i - left);
            }
        }
    }
}

/// A name that was read can always be written.
pub proof fn law_parsed_name_encodes(bytes: Seq<u8>)
    ensures
        question_in(bytes) matches Ok(q) ==> valid_name(q.name) && name_bytes(q.name) is Some,
{
    if let Ok(q) = question_in(bytes) {
        lemma_read_labels_short(bytes, 12);
        let (labels, pos) = labels_at(bytes, 12)->Ok_0;
        lemma_rejoined_short(labels);
        lemma_short_labels_encode(labels_of(q.name));
    }
}

/// The bytes of the first labels are the front of the bytes of all.
proof fn lemma_label_bytes_prefix(labels: Seq<Seq<char>>, k: int)
    requires
        0 <= k <= labels.len(),
        label_bytes(labels) is Some,
    ensures
        label_bytes(labels.take(k)) is Some,
        label_bytes(labels.take(k))->0.len() <= label_bytes(labels)->0.len(),
        label_bytes(labels)->0.take(label_bytes(labels.take(k))->0.len() as int) == label_bytes(
            labels.take(k),
        )->0,
    decreases labels.len(),
{
    let all = label_bytes(labels)->0;
    if k == labels.len() {
        assert(labels.take(k) =~= labels);
        assert(all.take(all.len() as int) =~= all);
    } else {
        let front = labels.drop_last();
        lemma_label_bytes_prefix(front, k);
        assert(front.take(k) =~= labels.take(k));
        let part = label_bytes(labels.take(k))->0;
        let mid = label_bytes(front)->0;
        assert(all.take(part.len() as int) =~= mid.take(part.len() as int));
    }
}

/// Written labels read back, from any of them on.
proof fn lemma_labels_read_back(bytes: Seq<u8>, pos: int, labels: Seq<Seq<char>>, k: int)
    requires
        0 <= k <= labels.len(),
        0 <= pos,
        label_bytes(labels) is Some,
        pos + label_bytes(labels)->0.len() < bytes.len(),
        bytes.subrange(pos, pos + label_bytes(labels)->0.len()) == label_bytes(labels)->0,
        bytes[pos + label_bytes(labels)->0.len()] == 0,
        forall|i: int| 0 <= i < labels.len() ==> (#[trigger] labels[i]).len() > 0,
    ensures
        label_bytes(labels.take(k)) is Some,
        labels_at(bytes, pos + label_bytes(labels.take(k))->0.len()) == Ok::<_, DnsError>(
            (labels.skip(k), pos + label_bytes(labels)->0.len() + 1),
        ),
    decreases labels.len() - k,
{
    let all = label_bytes(labels)->0;
    lemma_label_bytes_prefix(labels, k);
    let here = label_bytes(labels.take(k))->0;
    let at = pos + here.len();
    if k == labels.len() {
        assert(labels.take(k) =~= labels);
        assert(labels.skip(k) =~= Seq::empty());
    } else {
        lemma_labels_read_back(bytes, pos, labels, k + 1);
        lemma_label_bytes_prefix(labels, k + 1);
        let next = label_bytes(labels.take(k + 1))->0;
        assert(labels.take(k + 1).drop_last() =~= labels.take(k));
        assert(labels.take(k + 1).last() == labels[k]);
        let label = labels[k];
        let coded = encode_utf8(label);
        assert(next == here.push(coded.len() as u8) + coded);
        assert(coded.len() > 0) by {
            vstd::utf8::encode_utf8_first_scalar(label);
            assert(label.len() > 0);
        }
        assert forall|j: int| 0 <= j < next.len() implies bytes[pos + j] == next[j] by {
            assert(bytes.subrange(pos, pos + all.len())[j] == all[j]);
            assert(all.take(next.len() as int)[j] == next[j]);
        }
        assert(bytes[at] == next[here.len() as int]);
        assert(bytes[at] == coded.len());
        let end = at + 1 + coded.len();
        assert(bytes.subrange(at + 1, end) =~= coded) by {
            assert forall|j: int| 0 <= j < coded.len() implies bytes[at + 1 + j] == coded[j] by {
                assert(bytes[pos + (here.len() + 1 + j)] == next[here.len() + 1 + j]);
            }
        }
        vstd::utf8::encode_utf8_valid_utf8(label);
        vstd::utf8::encode_utf8_decode_utf8(label);
        assert(labels.skip(k) =~= seq![label] + labels.skip(k + 1));
    }
}

/// A response carries the question that it answers: parsing it gives the
/// question back, whatever the answers are.
pub proof fn law_response_carries_question(q: Question, exists: bool, records: Seq<Record>)
    requires
        valid_name(q.name),
        name_bytes(q.name) is Some,
    ensures
        question_in(response_bytes(q, exists, records)) == Ok::<_, DnsError>(q),
{
    let labels = labels_of(q.name);
    let coded = label_bytes(labels)->0;
    let name = name_bytes(q.name)->0;
    let header = response_header(q.id, exists, answer_count(records));
    let tail = answers_bytes(records);
    let all = response_bytes(q, exists, records);
    assert(header.len() == 12);
    assert(all == header + name + be16(q.qtype) + be16(q.qclass) + tail);
    let end: int = 12 + name.len() as int;
    assert(all.subrange(12, 12 + coded.len() as int) =~= coded);
    assert(all[12 + coded.len() as int] == 0) by {
        assert(all[12 + coded.len() as int] == name[coded.len() as int]);
    }
    crate::text::lemma_split_parts(q.name, '.');
    lemma_labels_read_back(all, 12, labels, 0);
    assert(labels.take(0) =~= Seq::empty());
    assert(labels.skip(0) =~= labels);
    crate::text::lemma_join_split(q.name, '.');
    assert(value16(all, 0) == q.id) by {
        assert(all[0] == be16(q.id)[0] && all[1] == be16(q.id)[1]);
    }
    assert(value16(all, 4) == 1) by {
        assert(all[4] == be16(1)[0] && all[5] == be16(1)[1]);
    }
    assert(value16(all, end) == q.qtype) by {
        assert(all[end] == be16(q.qtype)[0] && all[end + 1] == be16(q.qtype)[1]);
    }
    assert(value16(all, end + 2) == q.qclass) by {
        assert(all[end + 2] == be16(q.qclass)[0] && all[end + 3] == be16(q.qclass)[1]);
    }
}

/// The position behind `n` answers from `pos` on, each with a header of twelve
/// bytes that ends in the length of its data.
pub open spec fn answers_end(bytes: Seq<u8>, pos: int, n: nat) -> Option<int>
    decreases n,
{
    if n == 0 {
        Some(pos)
    } else if pos < 0 || pos + 12 > bytes.len() {
        None
    } else {
        let end = pos + 12 + value16(bytes, pos + 10);
        if end > bytes.len() {
            None
        } else {
            answers_end(bytes, end, (n - 1) as nat)
        }
    }
}

/// Going behind some answers and then behind more is going behind all.
proof fn lemma_answers_end_adds(bytes: Seq<u8>, pos: int, n: nat, m: nat)
    requires
        answers_end(bytes, pos, n) is Some,
    ensures
        answers_end(bytes, pos, n + m) == answers_end(bytes, answers_end(bytes, pos, n)->0, m),
    decreases n,
{
    if n > 0 {
        let end = pos + 12 + value16(bytes, pos + 10);
        lemma_answers_end_adds(bytes, end, (n - 1) as nat, m);
        assert((n + m - 1) as nat == (n - 1) as nat + m);
    }
}

/// Whether the data of every record fits behind its length.
pub open spec fn data_fits(records: Seq<Record>) -> bool {
    forall|i: int|
        0 <= i < records.len() ==> (rdata(#[trigger] records[i]) matches Ok(data) ==> data.len()
            < 0x1_0000)
}

/// One answer with data that fits takes the reader behind it.
proof fn lemma_answer_walked(front: Seq<u8>, record: Record, data: Seq<u8>, back: Seq<u8>)
    requires
        data.len() < 0x1_0000,
    ensures
        answers_end(front + answer_bytes(record, data) + back, front.len() as int, 1) == Some(
            front.len() as int + answer_bytes(record, data).len() as int,
        ),
{
    let answer = answer_bytes(record, data);
    let all = front + answer + back;
    let pos = front.len() as int;
    let end = pos + 12 + data.len() as int;
    let size = be16(data.len() as u16);
    assert(answer.len() == 12 + data.len());
    assert(answer[10] == size[0] && answer[11] == size[1]);
    assert(all[pos + 10] == answer[10] && all[pos + 11] == answer[11]);
    assert(value16(all, pos + 10) == data.len());
    assert(answers_end(all, end, 0) == Some(end));
}

/// A reader behind some answers gets behind one more.
proof fn lemma_next_answer_walked(
    front: Seq<u8>,
    done: Seq<u8>,
    answer: Seq<u8>,
    back: Seq<u8>,
    n: nat,
)
    requires
        answers_end(front + done + (answer + back), front.len() as int, n) == Some(
            front.len() as int + done.len() as int,
        ),
        answers_end((front + done) + answer + back, (front + done).len() as int, 1) == Some(
            (front + done).len() as int + answer.len() as int,
        ),
    ensures
        answers_end(front + (done + answer) + back, front.len() as int, n + 1) == Some(
            front.len() as int + (done + answer).len() as int,
        ),
{
    let all = front + (done + answer) + back;
    assert(all =~= front + done + (answer + back));
    assert(all =~= (front + done) + answer + back);
    lemma_answers_end_adds(all, front.len() as int, n, 1);
}

/// The answers for some records take the reader behind them, each in turn.
proof fn lemma_answers_walked(front: Seq<u8>, records: Seq<Record>, back: Seq<u8>)
    requires
        data_fits(records),
    ensures
        answers_end(
            front + answers_bytes(records) + back,
            front.len() as int,
            answer_count(records),
        ) == Some(front.len() as int + answers_bytes(records).len() as int),
    decreases records.len(),
{
    if records.len() > 0 {
        let init = records.drop_last();
        let last = records.last();
        let done = answers_bytes(init);
        assert(data_fits(init)) by {
            assert(forall|i: int| 0 <= i < init.len() ==> #[trigger] init[i] == records[i]);
        }
        assert(records[records.len() - 1] == last);
        match rdata(last) {
            Ok(data) => {
                let answer = answer_bytes(last, data);
                lemma_answers_walked(front, init, answer + back);
                lemma_answer_walked(front + done, last, data, back);
                lemma_next_answer_walked(front, done, answer, back, answer_count(init));
            },
            Err(_) => {
                lemma_answers_walked(front, init, back);
            },
        }
    }
}

/// A response is framed as its header says: behind the question there are as
/// many answers as the header counts, and nothing else. (Of the numbers that
/// are cut to sixteen bits none is too large here.)
pub proof fn law_response_framed(q: Question, exists: bool, records: Seq<Record>)
    requires
        name_bytes(q.name) is Some,
        answer_count(records) < 0x1_0000,
        data_fits(records),
    ensures
        ({
            let all = response_bytes(q, exists, records);
            let start = 12 + name_bytes(q.name)->0.len() + 4;
            &&& value16(all, 4) == 1
            &&& value16(all, 6) == answer_count(records)
            &&& answers_end(all, start as int, answer_count(records)) == Some(all.len() as int)
        }),
{
    let name = name_bytes(q.name)->0;
    let header = response_header(q.id, exists, answer_count(records));
    let tail = answers_bytes(records);
    let all = response_bytes(q, exists, records);
    let front = header + name + be16(q.qtype) + be16(q.qclass);
    let none: Seq<u8> = Seq::empty();
    assert(header.len() == 12);
    assert(all =~= front + tail + none);
    lemma_answers_walked(front, records, none);
    let count = answer_count(records) as u16;
    assert(all[4] == be16(1)[0] && all[5] == be16(1)[1]);
    assert(all[6] == be16(count)[0] && all[7] == be16(count)[1]);
}

proof fn lemma_unusable_record_ignored(before: Seq<Record>, bad: Record, after: Seq<Record>)
    requires
        rdata(bad) is Err,
    ensures
        answers_bytes(before.push(bad) + after) == answers_bytes(before + after),
        answer_count(before.push(bad) + after) == answer_count(before + after),
    decreases after.len(),
{
    let with = before.push(bad) + after;
    let without = before + after;
    if after.len() == 0 {
        assert(with.drop_last() =~= before);
        assert(with.last() == bad);
        assert(without =~= before);
        assert(answers_bytes(with) == answers_bytes(before));
    } else {
        lemma_unusable_record_ignored(before, bad, after.drop_last());
        assert(with.drop_last() =~= before.push(bad) + after.drop_last());
        assert(without.drop_last() =~= before + after.drop_last());
        assert(with.last() == after.last() && without.last() == after.last());
        assert(answers_bytes(with) == answers_bytes(without));
    }
}

/// A record whose data cannot be encoded leaves no trace in a response,
/// wherever it stands.
pub proof fn law_unusable_record_ignored(
    q: Question,
    exists: bool,
    before: Seq<Record>,
    bad: Record,
    after: Seq<Record>,
)
    requires
        rdata(bad) is Err,
    ensures
        response_bytes(q, exists, before.push(bad) + after) == response_bytes(
            q,
            exists,
            before + after,
        ),
{
    lemma_unusable_record_ignored(before, bad, after);
}

/// Answering a message that was understood never ends in the report of a
/// malformed request: the response carries the question that was asked.
pub proof fn law_understood_query_is_answered(bytes: Seq<u8>, exists: bool, records: Seq<Record>)
    requires
        question_in(bytes) is Ok,
    ensures
        question_in(response_bytes(question_in(bytes)->Ok_0, exists, records)) == question_in(
            bytes,
        ),
{
    law_parsed_name_encodes(bytes);
    law_response_carries_question(question_in(bytes)->Ok_0, exists, records);
}

/// Each record type travels under its own code.
pub proof fn law_type_codes(record_type: RecordType)
    ensures
        match record_type {
            RecordType::A => type_code(record_type) == 1,
            RecordType::Aaaa => type_code(record_type) == 28,
            RecordType::Cname => type_code(record_type) == 5,
            RecordType::Mx => type_code(record_type) == 15,
            RecordType::Txt => type_code(record_type) == 16,
            RecordType::Ns => type_code(record_type) == 2,
        },
{
}

/// The answers for two lists of records are those for one, then those for the
/// other, and as many as both together.
proof fn lemma_answers_concat(a: Seq<Record>, b: Seq<Record>)
    ensures
        answers_bytes(a + b) == answers_bytes(a) + answers_bytes(b),
        answer_count(a + b) == answer_count(a) + answer_count(b),
    decreases b.len(),
{
    let all = a + b;
    if b.len() == 0 {
        assert(all =~= a);
        assert(answers_bytes(a) + answers_bytes(b) =~= answers_bytes(a));
    } else {
        let front = b.drop_last();
        lemma_answers_concat(a, front);
        assert(all.drop_last() =~= a + front);
        assert(all.last() == b.last());
        if let Ok(data) = rdata(b.last()) {
            let answer = answer_bytes(b.last(), data);
            assert((answers_bytes(a) + answers_bytes(front)) + answer =~= answers_bytes(a) + (
            answers_bytes(front) + answer));
        }
    }
}

/// The answer for a single record.
proof fn lemma_answers_single(record: Record)
    ensures
        rdata(record) matches Ok(data) ==> answers_bytes(seq![record]) == answer_bytes(record, data)
            && answer_count(seq![record]) == 1,
        rdata(record) is Err ==> answers_bytes(seq![record]).len() == 0 && answer_count(seq![record])
            == 0,
{
    let one = seq![record];
    let none: Seq<Record> = Seq::empty();
    assert(one.drop_last() =~= none);
    assert(answers_bytes(none) =~= Seq::<u8>::empty());
    assert(answer_count(none) == 0);
    if let Ok(data) = rdata(record) {
        assert(answers_bytes(one) =~= answer_bytes(record, data));
    }
}

/// The parts of a response to a question that can be written.
#[verifier::spinoff_prover]
#[verifier::rlimit(40)]
proof fn lemma_response_parts(q: Question, exists: bool, records: Seq<Record>)
    requires
        name_bytes(q.name) is Some,
    ensures
        ({
            let all = response_bytes(q, exists, records);
            let start = 16 + name_bytes(q.name)->0.len();
            &&& all.len() == start + answers_bytes(records).len()
            &&& all.skip(start as int) == answers_bytes(records)
            &&& value16(all, 0) == q.id
            &&& value16(all, 2) == if exists {
                0x8400u16
            } else {
                0x8403u16
            }
            &&& value16(all, 4) == 1
            &&& value16(all, 6) == answer_count(records) % 0x1_0000
            &&& value16(all, 8) == 0
            &&& value16(all, 10) == 0
            &&& all.subrange(12, start - 4) == name_bytes(q.name)->0
            &&& value16(all, start - 4) == q.qtype
            &&& value16(all, start - 2) == q.qclass
        }),
{
    let name = name_bytes(q.name)->0;
    let all = response_bytes(q, exists, records);
    let tail = answers_bytes(records);
    let flags: u16 = if exists {
        0x8400
    } else {
        0x8403
    };
    let count = (answer_count(records) % 0x1_0000) as u16;
    let start = 16 + name.len() as int;
    assert(response_header(q.id, exists, answer_count(records)).len() == 12);
    assert(all.skip(start) =~= tail);
    assert(all.subrange(12, start - 4) =~= name);
    assert(all[0] == be16(q.id)[0] && all[1] == be16(q.id)[1]);
    assert(all[2] == be16(flags)[0] && all[3] == be16(flags)[1]);
    assert(all[4] == be16(1)[0] && all[5] == be16(1)[1]);
    assert(all[6] == be16(count)[0] && all[7] == be16(count)[1]);
    assert(all[8] == be16(0)[0] && all[9] == be16(0)[1]);
    assert(all[10] == be16(0)[0] && all[11] == be16(0)[1]);
    assert(all[start - 4] == be16(q.qtype)[0] && all[start - 3] == be16(q.qtype)[1]);
    assert(all[start - 2] == be16(q.qclass)[0] && all[start - 1] == be16(q.qclass)[1]);
}

/// A response has the identifier of its question, says that it is
/// authoritative and whether the name exists, repeats the question, and has
/// neither authority nor additional records.
#[verifier::spinoff_prover]
#[verifier::rlimit(40)]
pub proof fn law_response_header_fields(q: Question, exists: bool, records: Seq<Record>)
    requires
        name_bytes(q.name) is Some,
    ensures
        ({
            let all = response_bytes(q, exists, records);
            let name = name_bytes(q.name)->0;
            &&& value16(all, 0) == q.id
            &&& value16(all, 2) == if exists {
                0x8400u16
            } else {
                0x8403u16
            }
            &&& value16(all, 4) == 1
            &&& value16(all, 8) == 0
            &&& value16(all, 10) == 0
            &&& all.subrange(12, 12 + name.len() as int) == name
            &&& value16(all, 12 + name.len() as int) == q.qtype
            &&& value16(all, 14 + name.len() as int) == q.qclass
        }),
{
    lemma_response_parts(q, exists, records);
}

/// The answers of a response are those for its records, one by one and in
/// order: the response to two lists in a row has the answers to the first and
/// then those to the second, and counts both.
#[verifier::spinoff_prover]
#[verifier::rlimit(40)]
pub proof fn law_answers_in_order(
    q: Question,
    exists: bool,
    a: Seq<Record>,
    b: Seq<Record>,
    start: int,
)
    requires
        name_bytes(q.name) matches Some(name) && start == 16 + name.len(),
    ensures
        response_bytes(q, exists, a + b).skip(start) == response_bytes(q, exists, a).skip(start)
            + response_bytes(q, exists, b).skip(start),
        value16(response_bytes(q, exists, a + b), 6) == (value16(response_bytes(q, exists, a), 6)
            + value16(response_bytes(q, exists, b), 6)) % 0x1_0000,
{
    lemma_response_tail(q, exists, a, start);
    lemma_response_tail(q, exists, b, start);
    lemma_response_tail(q, exists, a + b, start);
    lemma_answers_concat(a, b);
    lemma_cut_numbers_add(answer_count(a), answer_count(b));
}

/// What a response has behind its question, and how many answers it counts.
proof fn lemma_response_tail(q: Question, exists: bool, records: Seq<Record>, start: int)
    requires
        name_bytes(q.name) matches Some(name) && start == 16 + name.len(),
    ensures
        response_bytes(q, exists, records).skip(start) == answers_bytes(records),
        value16(response_bytes(q, exists, records), 6) == answer_count(records) % 0x1_0000,
{
    lemma_response_parts(q, exists, records);
}

/// Numbers that are cut to sixteen bits add up to their sum, cut likewise.
proof fn lemma_cut_numbers_add(m: nat, n: nat)
    ensures
        (m + n) % 0x1_0000 == (m % 0x1_0000 + n % 0x1_0000) % 0x1_0000,
{
}

/// The answer for one record points to the question's name and carries the
/// record's own type, the internet class, its time to live and its data behind
/// their length. A record whose data cannot be encoded has no answer.
#[verifier::spinoff_prover]
#[verifier::rlimit(40)]
pub proof fn law_answer_says_record(q: Question, exists: bool, record: Record, start: int)
    requires
        name_bytes(q.name) matches Some(name) && start == 16 + name.len(),
    ensures
        ({
            let all = response_bytes(q, exists, seq![record]);
            match rdata(record) {
                Err(_) => all.len() == start && value16(all, 6) == 0,
                Ok(data) => {
                    &&& value16(all, 6) == 1
                    &&& all.len() == start + 12 + data.len()
                    &&& all[start] == 0xC0
                    &&& all[start + 1] == 12
                    &&& value16(all, start + 2) == match record.record_type {
                        RecordType::A => 1u16,
                        RecordType::Aaaa => 28,
                        RecordType::Cname => 5,
                        RecordType::Mx => 15,
                        RecordType::Txt => 16,
                        RecordType::Ns => 2,
                    }
                    &&& value16(all, start + 4) == 1
                    &&& crate::bytes::value32(all, start + 6) == record.ttl_secs
                    &&& value16(all, start + 10) == data.len() % 0x1_0000
                    &&& all.skip(start + 12) == data
                },
            }
        }),
{
    let all = response_bytes(q, exists, seq![record]);
    lemma_response_parts(q, exists, seq![record]);
    lemma_answers_single(record);
    if let Ok(data) = rdata(record) {
        let front = all.take(start);
        let answer = answer_bytes(record, data);
        lemma_last_part(all, start, answer);
        lemma_answer_fields(front, record, data, Seq::empty());
        lemma_subrange_to_end(all, start + 12, data);
    }
}

/// A message whose last part is known, with nothing behind it.
proof fn lemma_last_part(all: Seq<u8>, start: int, part: Seq<u8>)
    requires
        0 <= start <= all.len(),
        all.skip(start) == part,
    ensures
        all == all.take(start) + part + Seq::<u8>::empty(),
        all.take(start).len() == start,
{
    assert(all =~= all.take(start) + all.skip(start));
    assert(all =~= all.take(start) + part + Seq::<u8>::empty());
}

proof fn lemma_subrange_to_end(all: Seq<u8>, from: int, part: Seq<u8>)
    requires
        0 <= from,
        from + part.len() == all.len(),
        all.subrange(from, from + part.len()) == part,
    ensures
        all.skip(from) == part,
{
    assert(all.skip(from) =~= all.subrange(from, from + part.len()));
}

/// The fields of an answer in the middle of a message.
#[verifier::spinoff_prover]
#[verifier::rlimit(40)]
proof fn lemma_answer_fields(front: Seq<u8>, record: Record, data: Seq<u8>, back: Seq<u8>)
    ensures
        ({
            let all = front + answer_bytes(record, data) + back;
            let p = front.len() as int;
            &&& answer_bytes(record, data).len() == 12 + data.len()
            &&& all[p] == 0xC0
            &&& all[p + 1] == 12
            &&& value16(all, p + 2) == type_code(record.record_type)
            &&& value16(all, p + 4) == 1
            &&& crate::bytes::value32(all, p + 6) == record.ttl_secs
            &&& value16(all, p + 10) == data.len() % 0x1_0000
            &&& all.subrange(p + 12, p + 12 + data.len()) == data
        }),
{
    let answer = answer_bytes(record, data);
    let all = front + answer + back;
    let p = front.len() as int;
    let code = be16(type_code(record.record_type));
    let ttl = be32(record.ttl_secs);
    let size = be16((data.len() % 0x1_0000) as u16);
    assert(all[p] == answer[0] && all[p + 1] == answer[1]);
    assert(all[p + 2] == code[0] && all[p + 3] == code[1]);
    assert(all[p + 4] == be16(1)[0] && all[p + 5] == be16(1)[1]);
    let before = all.take(p + 6);
    let behind = all.skip(p + 10);
    assert(all =~= before + ttl + behind);
    crate::bytes::law_be32_round_trip(before, record.ttl_secs, behind);
    assert(all[p + 10] == size[0] && all[p + 11] == size[1]);
    assert(all.subrange(p + 12, p + 12 + data.len()) =~= data);
}

/// Reading the answers of a response back gives, at the place of each record
/// that can be encoded, its own type, the internet class, its time to live and
/// its data, whatever stands before and behind it.
#[verifier::spinoff_prover]
#[verifier::rlimit(40)]
pub proof fn law_answer_reads_back(
    q: Question,
    exists: bool,
    before: Seq<Record>,
    record: Record,
    after: Seq<Record>,
)
    requires
        name_bytes(q.name) is Some,
        data_fits(before),
        rdata(record) is Ok,
    ensures
        ({
            let all = response_bytes(q, exists, before.push(record) + after);
            let start = 16 + name_bytes(q.name)->0.len() as int;
            let data = rdata(record)->Ok_0;
            &&& answers_end(all, start, answer_count(before)) matches Some(p)
            &&& value16(all, p + 2) == match record.record_type {
                RecordType::A => 1u16,
                RecordType::Aaaa => 28,
                RecordType::Cname => 5,
                RecordType::Mx => 15,
                RecordType::Txt => 16,
                RecordType::Ns => 2,
            }
            &&& value16(all, p + 4) == 1
            &&& crate::bytes::value32(all, p + 6) == record.ttl_secs
            &&& value16(all, p + 10) == data.len() % 0x1_0000
            &&& all.subrange(p + 12, p + 12 + data.len()) == data
        }),
{
    let list = before.push(record) + after;
    let all = response_bytes(q, exists, list);
    let start = 16 + name_bytes(q.name)->0.len() as int;
    let data = rdata(record)->Ok_0;
    let head = all.take(start);
    let done = answers_bytes(before);
    let answer = answer_bytes(record, data);
    let back = answers_bytes(after);
    lemma_response_cut(q, exists, before, record, after);
    lemma_answers_walked(head, before, answer + back);
    lemma_answer_fields(head + done, record, data, back);
}

/// A response, cut at the answer for one of its records.
#[verifier::spinoff_prover]
#[verifier::rlimit(40)]
proof fn lemma_response_cut(
    q: Question,
    exists: bool,
    before: Seq<Record>,
    record: Record,
    after: Seq<Record>,
)
    requires
        name_bytes(q.name) is Some,
        rdata(record) is Ok,
    ensures
        ({
            let all = response_bytes(q, exists, before.push(record) + after);
            let start = 16 + name_bytes(q.name)->0.len() as int;
            let head = all.take(start);
            let done = answers_bytes(before);
            let answer = answer_bytes(record, rdata(record)->Ok_0);
            let back = answers_bytes(after);
            &&& head.len() == start
            &&& all == head + done + (answer + back)
            &&& all == (head + done) + answer + back
        }),
{
    let list = before.push(record) + after;
    let all = response_bytes(q, exists, list);
    let start = 16 + name_bytes(q.name)->0.len() as int;
    let answer = answer_bytes(record, rdata(record)->Ok_0);
    lemma_response_parts(q, exists, list);
    assert(list =~= before + (seq![record] + after));
    lemma_answers_concat(before, seq![record] + after);
    lemma_answers_concat(seq![record], after);
    lemma_answers_single(record);
    lemma_cut_at(all, start, answers_bytes(before), answer, answers_bytes(after));
}

proof fn lemma_cut_at(all: Seq<u8>, start: int, done: Seq<u8>, answer: Seq<u8>, back: Seq<u8>)
    requires
        0 <= start <= all.len(),
        all.skip(start) == done + (answer + back),
    ensures
        all.take(start).len() == start,
        all == all.take(start) + done + (answer + back),
        all == (all.take(start) + done) + answer + back,
{
    assert(all =~= all.take(start) + all.skip(start));
    assert(all =~= all.take(start) + done + (answer + back));
    assert(all =~= (all.take(start) + done) + answer + back);
}

/// There are as many answers as there are records whose data can be encoded.
pub proof fn law_usable_records_counted(records: Seq<Record>)
    ensures
        answer_count(records) == records.filter(|r: Record| rdata(r) is Ok).len(),
    decreases records.len(),
{
    reveal(Seq::filter);
    if records.len() > 0 {
        law_usable_records_counted(records.drop_last());
    }
}

/// The data of a record follow from its value by its own type: the octets of
/// an address, a name, a preference and a name, or character strings. Where
/// the value is no such thing, they cannot be encoded.
pub proof fn law_data_by_type(record: Record)
    ensures
        ({
            let value = record.value@;
            match record.record_type {
                RecordType::A => match v4_octets(value) {
                    Some(octets) => rdata(record) == Ok::<_, DnsError>(octets),
                    None => rdata(record) == Err::<Seq<u8>, _>(DnsError::MalformedLabel),
                },
                RecordType::Aaaa => match v6_octets(value) {
                    Some(octets) => rdata(record) == Ok::<_, DnsError>(octets),
                    None => rdata(record) == Err::<Seq<u8>, _>(DnsError::MalformedLabel),
                },
                RecordType::Cname | RecordType::Ns => match rdata(record) {
                    Ok(data) => valid_name(value) && name_bytes(value) == Some(data),
                    Err(DnsError::InvalidDomain(e)) => !valid_name(value) && e == refusal(value),
                    Err(e) => e == DnsError::MalformedLabel && valid_name(value) && name_bytes(
                        value,
                    ) is None,
                },
                RecordType::Mx => {
                    let host = mail_exchange(value).1;
                    match rdata(record) {
                        Ok(data) => {
                            &&& data.len() >= 2
                            &&& value16(data, 0) == mail_exchange(value).0
                            &&& valid_name(host)
                            &&& name_bytes(host) == Some(data.skip(2))
                        },
                        Err(DnsError::InvalidDomain(e)) => !valid_name(host) && e == refusal(host),
                        Err(e) => e == DnsError::MalformedLabel && valid_name(host) && name_bytes(
                            host,
                        ) is None,
                    }
                },
                RecordType::Txt => rdata(record) == Ok::<_, DnsError>(
                    text_chunks(encode_utf8(value)),
                ),
            }
        }),
{
    if let RecordType::Mx = record.record_type {
        if let Ok(data) = rdata(record) {
            let (preference, host) = mail_exchange(record.value@);
            let coded = be16(preference);
            assert(data[0] == coded[0] && data[1] == coded[1]);
            assert(data.skip(2) =~= name_bytes(host)->0);
        }
    }
}

/// Labels travel one behind the other, each as its length and its bytes, and
/// only where each has at most 63 bytes.
pub proof fn law_labels_travel_in_order(a: Seq<Seq<char>>, b: Seq<Seq<char>>, label: Seq<char>)
    ensures
        label_bytes(a + b) == (match (label_bytes(a), label_bytes(b)) {
            (Some(x), Some(y)) => Some(x + y),
            _ => None,
        }),
        label_bytes(seq![label]) == if encode_utf8(label).len() <= 63 {
            Some(seq![encode_utf8(label).len() as u8] + encode_utf8(label))
        } else {
            None
        },
        label_bytes(Seq::empty()) == Some(Seq::<u8>::empty()),
    decreases b.len(),
{
    let all = a + b;
    let none: Seq<Seq<char>> = Seq::empty();
    let nothing: Seq<u8> = Seq::empty();
    let bytes = encode_utf8(label);
    assert(label_bytes(none) == Some(nothing));
    assert(seq![label].drop_last() =~= none);
    assert(nothing.push(bytes.len() as u8) + bytes =~= seq![bytes.len() as u8] + bytes);
    if b.len() == 0 {
        assert(all =~= a);
        assert(b =~= none);
        if let Some(x) = label_bytes(a) {
            assert(x + nothing =~= x);
        }
    } else {
        let front = b.drop_last();
        law_labels_travel_in_order(a, front, label);
        assert(all.drop_last() =~= a + front);
        assert(all.last() == b.last());
        let last = encode_utf8(b.last());
        if let (Some(x), Some(y)) = (label_bytes(a), label_bytes(front)) {
            assert((x + y).push(last.len() as u8) + last =~= x + (y.push(last.len() as u8) + last));
        }
    }
}

/// A name travels as its labels, which are what stands between its dots, and
/// an empty one at the end; and it can travel exactly where every label has at
/// most 63 bytes.
pub proof fn law_name_travels_by_labels(name: Seq<char>)
    ensures
        name_bytes(name) is Some <==> forall|i: int|
            0 <= i < crate::text::split(name, '.').len() ==> encode_utf8(
                #[trigger] crate::text::split(name, '.')[i],
            ).len() <= 63,
        name_bytes(name) matches Some(bytes) ==> bytes.len() > 0 && bytes.last() == 0
            && label_bytes(crate::text::split(name, '.')) == Some(bytes.drop_last()),
{
    lemma_short_labels_encode(labels_of(name));
    if let Some(bytes) = name_bytes(name) {
        assert(bytes.drop_last() =~= label_bytes(labels_of(name))->0);
    }
}

/// The preference of a mail exchange record is the number before the first
/// space, and the host what follows; without such a number the preference is
/// zero and the host is the whole value.
pub proof fn law_mail_exchange_parts(
    preference: u16,
    host: Seq<char>,
    word: Seq<char>,
)
    requires
        forall|i: int| 0 <= i < word.len() ==> word[i] != ' ',
    ensures
        mail_exchange(decimal(preference as nat) + seq![' '] + host) == (preference, host),
        mail_exchange(seq!['+'] + decimal(preference as nat) + seq![' '] + host) == (
            preference,
            host,
        ),
        mail_exchange(word) == (0u16, word),
        preference_value(word) is None ==> mail_exchange(word + seq![' '] + host) == (
            0u16,
            word + seq![' '] + host,
        ),
{
    let number = decimal(preference as nat);
    let signed = seq!['+'] + number;
    crate::text::lemma_decimal_digits(preference as nat);
    crate::address::law_decimal_reads_back(preference as nat);
    assert forall|i: int| 0 <= i < signed.len() implies signed[i] != ' ' by {
        if i > 0 {
            assert(signed[i] == number[i - 1]);
        }
    }
    lemma_first_space(number, host);
    lemma_first_space(signed, host);
    lemma_first_space(word, host);
    assert(signed.skip(1) =~= number);
    assert(number[0] != '+');
    crate::text::law_index_is_first(word, ' ', 0);
}

/// The first space is the one behind a word without any.
proof fn lemma_first_space(word: Seq<char>, rest: Seq<char>)
    requires
        forall|i: int| 0 <= i < word.len() ==> word[i] != ' ',
    ensures
        ({
            let s = word + seq![' '] + rest;
            &&& index_from(s, ' ', 0) == word.len()
            &&& s.take(word.len() as int) == word
            &&& s.skip(word.len() as int + 1) == rest
        }),
{
    let s = word + seq![' '] + rest;
    let k = word.len() as int;
    assert(s[k] == ' ');
    assert forall|i: int| 0 <= i < k implies s[i] != ' ' by {
        assert(s[i] == word[i]);
    }
    crate::text::lemma_index_from(s, ' ', 0, k);
    assert(s.take(k) =~= word);
    assert(s.skip(k + 1) =~= rest);
}

/// A preference is a number of decimal digits that fits in sixteen bits,
/// perhaps behind a plus sign; nothing else is one.
pub proof fn law_preference_is_number(s: Seq<char>)
    ensures
        s.len() == 0 ==> preference_value(s) is None,
        s.len() > 0 && s[0] != '+' ==> (match crate::address::number_in(s, 10) {
            Some(v) => if v <= 65535 {
                preference_value(s) == Some(v as u16)
            } else {
                preference_value(s) is None
            },
            None => preference_value(s) is None,
        }),
        s.len() > 0 && s[0] == '+' ==> (match crate::address::number_in(s.skip(1), 10) {
            Some(v) => if s.len() > 1 && v <= 65535 {
                preference_value(s) == Some(v as u16)
            } else {
                preference_value(s) is None
            },
            None => preference_value(s) is None,
        }),
{
}

/// A text travels as character strings of 255 bytes, the last perhaps
/// shorter: each behind its length, in order, with nothing lost and nothing
/// between them.
pub proof fn law_text_in_strings(bytes: Seq<u8>, i: int, k: int)
    ensures
        text_chunks(bytes).len() == bytes.len() + (bytes.len() + 254) / 255,
        0 <= i < bytes.len() ==> text_chunks(bytes)[256 * (i / 255) + 1 + i % 255] == bytes[i],
        0 <= k && 255 * k < bytes.len() ==> text_chunks(bytes)[256 * k] == if bytes.len() - 255 * k
            < 255 {
            bytes.len() - 255 * k
        } else {
            255
        },
    decreases bytes.len(),
{
    let all = text_chunks(bytes);
    if bytes.len() > 255 {
        let rest = bytes.skip(255);
        law_text_in_strings(rest, i - 255, k - 1);
        assert(all == seq![255u8] + bytes.take(255) + text_chunks(rest));
        if 255 <= i < bytes.len() {
            assert((i - 255) / 255 == i / 255 - 1 && (i - 255) % 255 == i % 255);
            let at = 256 * ((i - 255) / 255) + 1 + (i - 255) % 255;
            assert(all[256 + at] == text_chunks(rest)[at]);
            assert(rest[i - 255] == bytes[i]);
        } else if 0 <= i < 255 {
            assert(i / 255 == 0 && i % 255 == i);
            assert(all[1 + i] == bytes.take(255)[i]);
        }
        if 1 <= k && 255 * k < bytes.len() {
            assert(all[256 * k] == text_chunks(rest)[256 * (k - 1)]);
        }
    } else if bytes.len() > 0 {
        if 0 <= i < bytes.len() {
            if i < 255 {
                assert(i / 255 == 0 && i % 255 == i);
            }
            assert(all[1 + i] == bytes[i]);
        }
    }
}

/// The report of a malformed request is a bare header: the identifier, that it
/// is a response, and the error.
#[verifier::spinoff_prover]
#[verifier::rlimit(40)]
pub proof fn law_format_error_fields(id: u16, i: int)
    requires
        4 <= i < 12,
    ensures
        format_error_bytes(id).len() == 12,
        value16(format_error_bytes(id), 0) == id,
        value16(format_error_bytes(id), 2) == 0x8001,
        format_error_bytes(id)[i] == 0,
{
    let all = format_error_bytes(id);
    assert(all[0] == be16(id)[0] && all[1] == be16(id)[1]);
    assert(all[2] == be16(0x8001)[0] && all[3] == be16(0x8001)[1]);
}

/// Labels that stand somewhere in a message are read in front of what is read
/// behind them.
proof fn lemma_labels_in_front(bytes: Seq<u8>, pos: int, labels: Seq<Seq<char>>)
    requires
        0 <= pos,
        label_bytes(labels) is Some,
        pos + label_bytes(labels)->0.len() <= bytes.len(),
        bytes.subrange(pos, pos + label_bytes(labels)->0.len()) == label_bytes(labels)->0,
        forall|i: int| 0 <= i < labels.len() ==> (#[trigger] labels[i]).len() > 0,
    ensures
        labels_at(bytes, pos) == (match labels_at(bytes, pos + label_bytes(labels)->0.len()) {
            Err(e) => Err(e),
            Ok((rest, next)) => Ok((labels + rest, next)),
        }),
    decreases labels.len(),
{
    let coded = label_bytes(labels)->0;
    let end = pos + coded.len();
    if labels.len() == 0 {
        if let Ok((rest, next)) = labels_at(bytes, end) {
            assert(labels + rest =~= rest);
        }
    } else {
        let init = labels.drop_last();
        let last = labels.last();
        let text = encode_utf8(last);
        let head = label_bytes(init)->0;
        let mid = pos + head.len();
        assert(coded == head.push(text.len() as u8) + text);
        assert forall|j: int| 0 <= j < coded.len() implies bytes[pos + j] == coded[j] by {
            assert(bytes.subrange(pos, end)[j] == coded[j]);
        }
        assert(bytes.subrange(pos, mid) =~= head);
        assert forall|i: int| 0 <= i < init.len() implies (#[trigger] init[i]).len() > 0 by {
            assert(init[i] == labels[i]);
        }
        lemma_labels_in_front(bytes, pos, init);
        assert(labels[labels.len() - 1].len() > 0);
        assert(text.len() > 0) by {
            vstd::utf8::encode_utf8_first_scalar(last);
        }
        assert(bytes[pos + head.len()] == coded[head.len() as int]);
        assert(bytes[mid] == text.len());
        assert(bytes.subrange(mid + 1, end) =~= text) by {
            assert forall|j: int| 0 <= j < text.len() implies bytes[mid + 1 + j] == text[j] by {
                assert(bytes[pos + (head.len() + 1 + j)] == coded[head.len() + 1 + j]);
            }
        }
        vstd::utf8::encode_utf8_valid_utf8(last);
        vstd::utf8::encode_utf8_decode_utf8(last);
        assert(labels =~= init.push(last));
        if let Ok((rest, next)) = labels_at(bytes, end) {
            lemma_labels_chain(init, last, rest);
        }
    }
}

/// A message with a header that counts one question is understood, whatever
/// else the header says and whatever follows the question: its labels make the
/// name, and the numbers behind them are the type and the class.
pub proof fn law_question_understood(
    header: Seq<u8>,
    labels: Seq<Seq<char>>,
    qtype: u16,
    qclass: u16,
    rest: Seq<u8>,
)
    requires
        header.len() == 12,
        header[4] == 0 && header[5] == 1,
        forall|i: int|
            0 <= i < labels.len() ==> (#[trigger] labels[i]).len() > 0 && encode_utf8(
                labels[i],
            ).len() <= 63,
        valid_name(join(labels, '.')),
    ensures
        label_bytes(labels) is Some,
        question_in(
            header + label_bytes(labels)->0 + seq![0u8] + be16(qtype) + be16(qclass) + rest,
        ) == Ok::<_, DnsError>(
            Question {
                id: (header[0] * 256 + header[1]) as u16,
                name: join(labels, '.'),
                qtype,
                qclass,
            },
        ),
{
    lemma_short_labels_encode(labels);
    let coded = label_bytes(labels)->0;
    let bytes = header + coded + seq![0u8] + be16(qtype) + be16(qclass) + rest;
    let end = 12 + coded.len() as int;
    assert(bytes.subrange(12, end) =~= coded);
    assert(bytes[end] == 0);
    lemma_labels_in_front(bytes, 12, labels);
    let none: Seq<Seq<char>> = Seq::empty();
    assert(labels_at(bytes, end) == Ok::<_, DnsError>((none, end + 1)));
    assert(labels + none =~= labels);
    assert(bytes[0] == header[0] && bytes[1] == header[1]);
    assert(bytes[4] == header[4] && bytes[5] == header[5]);
    assert(bytes[end + 1] == be16(qtype)[0] && bytes[end + 2] == be16(qtype)[1]);
    assert(bytes[end + 3] == be16(qclass)[0] && bytes[end + 4] == be16(qclass)[1]);
}

/// What is read as labels stands in the message as labels travel, each filled,
/// and ends in the empty one.
proof fn lemma_labels_stood(bytes: Seq<u8>, pos: int)
    ensures
        labels_at(bytes, pos) matches Ok((labels, next)) ==> {
            &&& 0 <= pos < next <= bytes.len()
            &&& label_bytes(labels) is Some
            &&& bytes.subrange(pos, next) == label_bytes(labels)->0.push(0)
            &&& forall|i: int| 0 <= i < labels.len() ==> (#[trigger] labels[i]).len() > 0
        },
    decreases bytes.len() - pos,
{
    if let Ok((labels, next)) = labels_at(bytes, pos) {
        let len = bytes[pos] as int;
        let end = pos + 1 + len;
        let none: Seq<u8> = Seq::empty();
        if len == 0 {
            assert(label_bytes(labels) == Some(none));
            assert(bytes.subrange(pos, next) =~= none.push(0));
        } else {
            lemma_labels_stood(bytes, end);
            let (rest, _) = labels_at(bytes, end)->Ok_0;
            let raw = bytes.subrange(pos + 1, end);
            let label = decode_utf8(raw);
            vstd::utf8::decode_utf8_encode_utf8(raw);
            assert(labels == seq![label] + rest);
            law_labels_travel_in_order(seq![label], rest, label);
            let tail = label_bytes(rest)->0;
            assert(label_bytes(labels) == Some((seq![raw.len() as u8] + raw) + tail));
            assert(bytes.subrange(pos, next) =~= seq![bytes[pos]] + raw + bytes.subrange(end, next));
            assert(bytes.subrange(pos, next) =~= label_bytes(labels)->0.push(0));
            assert forall|i: int| 0 <= i < labels.len() implies (#[trigger] labels[i]).len() > 0 by {
                if i > 0 {
                    assert(labels[i] == rest[i - 1]);
                } else if label.len() == 0 {
                    assert(encode_utf8(label).len() == 0);
                }
            }
        }
    }
}

/// A message is understood only where its header counts one question and the
/// question stands behind it, as names travel: the name is that of the labels
/// and is valid, and identifier, type and class are read where they stand.
pub proof fn law_understood_question_stood(bytes: Seq<u8>)
    requires
        question_in(bytes) is Ok,
    ensures
        ({
            let q = question_in(bytes)->Ok_0;
            &&& bytes.len() >= 17
            &&& bytes[4] == 0 && bytes[5] == 1
            &&& q.id == bytes[0] * 256 + bytes[1]
            &&& valid_name(q.name)
            &&& exists|labels: Seq<Seq<char>>| #[trigger]
                label_bytes(labels) matches Some(coded) && {
                    let end = 12 + coded.len() as int + 1;
                    &&& end + 4 <= bytes.len()
                    &&& bytes.subrange(12, end) == coded.push(0)
                    &&& q.name == join(labels, '.')
                    &&& q.qtype == bytes[end] * 256 + bytes[end + 1]
                    &&& q.qclass == bytes[end + 2] * 256 + bytes[end + 3]
                }
        }),
{
    lemma_labels_stood(bytes, 12);
    let (labels, next) = labels_at(bytes, 12)->Ok_0;
    let coded = label_bytes(labels)->0;
    assert(bytes.subrange(12, next).len() == coded.push(0).len());
    assert(next == 12 + coded.len() + 1);
    assert(label_bytes(labels) matches Some(c) && c == coded);
}

/// What can be wrong with labels.
proof fn lemma_label_faults(bytes: Seq<u8>, pos: int)
    ensures
        labels_at(bytes, pos) matches Err(e) ==> e == DnsError::MalformedLabel || e
            == DnsError::InvalidUtf8,
    decreases bytes.len() - pos,
{
    if 0 <= pos < bytes.len() && pos + 1 + bytes[pos] <= bytes.len() {
        lemma_label_faults(bytes, pos + 1 + bytes[pos]);
    }
}

/// Each fault of a message is told by its own error: too short for a header,
/// not one question, a label that is too long or cut off, a label that is not
/// UTF-8, a question that is cut off behind its name, and a name that is not
/// valid.
pub proof fn law_faults_told_apart(
    header: Seq<u8>,
    labels: Seq<Seq<char>>,
    size: u8,
    rest: Seq<u8>,
    bytes: Seq<u8>,
)
    requires
        header.len() == 12,
        header[4] == 0 && header[5] == 1,
        forall|i: int|
            0 <= i < labels.len() ==> (#[trigger] labels[i]).len() > 0 && encode_utf8(
                labels[i],
            ).len() <= 63,
    ensures
        bytes.len() < 12 <==> question_in(bytes) == Err::<Question, _>(DnsError::TooShort),
        bytes.len() >= 12 && !(bytes[4] == 0 && bytes[5] == 1) <==> question_in(bytes) == Err::<
            Question,
            _,
        >(DnsError::UnsupportedQuestionCount),
        label_bytes(labels) is Some,
        ({
            let found = question_in(header + label_bytes(labels)->0 + seq![size] + rest);
            let name = join(labels, '.');
            &&& size > 63 ==> found == Err::<Question, _>(DnsError::MalformedLabel)
            &&& 1 <= size <= 63 && rest.len() < size ==> found == Err::<Question, _>(
                DnsError::MalformedLabel,
            )
            &&& 1 <= size <= 63 && rest.len() >= size && !valid_utf8(rest.take(size as int))
                ==> found == Err::<Question, _>(DnsError::InvalidUtf8)
            &&& size == 0 && rest.len() < 4 ==> found == Err::<Question, _>(
                DnsError::MalformedLabel,
            )
            &&& size == 0 && rest.len() >= 4 && !valid_name(name) ==> (found matches Err(e)
                && e is InvalidDomain)
            &&& size == 0 && rest.len() >= 4 ==> forall|e: DomainNameError| #[trigger]
                name_refused(name, e) ==> found == Err::<Question, _>(DnsError::InvalidDomain(e))
        }),
        question_in(header + label_bytes(labels)->0) == Err::<Question, _>(DnsError::MalformedLabel),
{
    lemma_short_labels_encode(labels);
    let coded = label_bytes(labels)->0;
    let all = header + coded + seq![size] + rest;
    let end = 12 + coded.len() as int;
    assert(all.subrange(12, end) =~= coded);
    assert(all[end] == size);
    assert(all[4] == header[4] && all[5] == header[5]);
    lemma_labels_in_front(all, 12, labels);
    if rest.len() >= size {
        assert(all.subrange(end + 1, end + 1 + size) =~= rest.take(size as int));
    }
    let none: Seq<Seq<char>> = Seq::empty();
    assert(labels + none =~= labels);
    let name = join(labels, '.');
    assert forall|e: DomainNameError| #[trigger] name_refused(name, e) implies !valid_name(name) && e
        == refusal(name) by {
        crate::domain::law_refusal_unique(name, e, refusal(name));
    }
    lemma_label_faults(bytes, 12);
    let cut = header + coded;
    assert(cut.subrange(12, end) =~= coded);
    assert(cut[4] == header[4] && cut[5] == header[5]);
    lemma_labels_in_front(cut, 12, labels);
}

/// Labels are gone through by a reader that follows pointers as well.
proof fn lemma_labels_passed(bytes: Seq<u8>, pos: int, labels: Seq<Seq<char>>, jumps: int)
    requires
        0 <= pos,
        0 <= jumps <= 32,
        label_bytes(labels) is Some,
        pos + label_bytes(labels)->0.len() < bytes.len(),
        bytes.subrange(pos, pos + label_bytes(labels)->0.len()) == label_bytes(labels)->0,
        bytes[pos + label_bytes(labels)->0.len()] == 0,
        forall|i: int| 0 <= i < labels.len() ==> (#[trigger] labels[i]).len() > 0,
    ensures
        name_at(bytes, pos, jumps) matches Some((_, next)) && next == pos + label_bytes(
            labels,
        )->0.len() + 1,
    decreases labels.len(),
{
    if labels.len() > 0 {
        let first = labels[0];
        let rest = labels.skip(1);
        let text = encode_utf8(first);
        assert(labels =~= seq![first] + rest);
        law_labels_travel_in_order(seq![first], rest, first);
        let coded = label_bytes(labels)->0;
        let tail = label_bytes(rest)->0;
        assert(coded == (seq![text.len() as u8] + text) + tail);
        assert(text.len() > 0) by {
            assert(labels[0].len() > 0);
            vstd::utf8::encode_utf8_first_scalar(first);
        }
        let next = pos + 1 + text.len();
        assert forall|j: int| 0 <= j < coded.len() implies bytes[pos + j] == coded[j] by {
            assert(bytes.subrange(pos, pos + coded.len())[j] == coded[j]);
        }
        assert(label_bytes(seq![first]) is Some);
        assert(text.len() <= 63);
        assert(coded[0] == text.len() as u8);
        assert(bytes[pos + 0] == coded[0]);
        assert(bytes[pos] == text.len());
        assert(bytes.subrange(next, next + tail.len()) =~= tail) by {
            assert forall|j: int| 0 <= j < tail.len() implies bytes[next + j] == tail[j] by {
                assert(bytes[pos + (1 + text.len() + j)] == coded[1 + text.len() + j]);
            }
        }
        assert forall|i: int| 0 <= i < rest.len() implies (#[trigger] rest[i]).len() > 0 by {
            assert(rest[i] == labels[i + 1]);
        }
        lemma_labels_passed(bytes, next, rest, jumps);
    }
}

/// What a reader of the classic DNS is told of records.
spec fn told_of(records: Seq<Record>) -> Seq<(u16, Seq<u8>)>
    decreases records.len(),
{
    if records.len() == 0 {
        Seq::empty()
    } else {
        match rdata(records[0]) {
            Ok(data) => seq![(type_code(records[0].record_type), data)] + told_of(records.skip(1)),
            Err(_) => told_of(records.skip(1)),
        }
    }
}

proof fn lemma_told_concat(a: Seq<Record>, b: Seq<Record>)
    ensures
        told_of(a + b) == told_of(a) + told_of(b),
    decreases a.len(),
{
    let all = a + b;
    if a.len() == 0 {
        assert(all =~= b);
        assert(told_of(a) + told_of(b) =~= told_of(b));
    } else {
        lemma_told_concat(a.skip(1), b);
        assert(all.skip(1) =~= a.skip(1) + b);
        assert(all[0] == a[0]);
        if let Ok(data) = rdata(a[0]) {
            let one = seq![(type_code(a[0].record_type), data)];
            assert(one + (told_of(a.skip(1)) + told_of(b)) =~= (one + told_of(a.skip(1))) + told_of(
                b,
            ));
        }
    }
}

proof fn lemma_told_single(record: Record)
    ensures
        told_of(seq![record]) == (match rdata(record) {
            Ok(data) => seq![(type_code(record.record_type), data)],
            Err(_) => Seq::empty(),
        }),
{
    let none: Seq<Record> = Seq::empty();
    assert(seq![record].skip(1) =~= none);
    assert(told_of(none) =~= Seq::empty());
    if let Ok(data) = rdata(record) {
        let one = seq![(type_code(record.record_type), data)];
        assert(one + told_of(none) =~= one);
    }
}

/// One answer, read by a reader of the classic DNS in front of what follows.
proof fn lemma_answer_told(
    front: Seq<u8>,
    record: Record,
    data: Seq<u8>,
    back: Seq<u8>,
    n: nat,
    rest: Seq<(u16, Seq<u8>)>,
)
    requires
        data.len() < 0x1_0000,
        front.len() >= 12,
        name_at(front + answer_bytes(record, data) + back, 12, 1) is Some,
        answers_at(
            front + answer_bytes(record, data) + back,
            front.len() as int + answer_bytes(record, data).len() as int,
            n,
        ) == Some(rest),
    ensures
        answers_at(front + answer_bytes(record, data) + back, front.len() as int, n + 1) == Some(
            seq![(type_code(record.record_type), data)] + rest,
        ),
{
    let all = front + answer_bytes(record, data) + back;
    let p = front.len() as int;
    lemma_answer_fields(front, record, data, back);
    assert((all[p] - 192) * 256 + all[p + 1] == 12);
    assert(name_at(all, p, 0) matches Some((_, next)) && next == p + 2);
    let end = p + 12 + data.len() as int;
    assert(all.subrange(p + 12, end) == data);
    assert((n + 1 - 1) as nat == n);
}

proof fn lemma_regroup(a: Seq<u8>, b: Seq<u8>, c: Seq<u8>)
    ensures
        a + (b + c) == (a + b) + c,
        a + (Seq::<u8>::empty() + c) == a + c,
{
    assert(a + (b + c) =~= (a + b) + c);
    assert(Seq::<u8>::empty() + c =~= c);
}

/// The records behind the first one, where all data fit.
proof fn lemma_rest_fits(records: Seq<Record>)
    requires
        records.len() > 0,
        data_fits(records),
    ensures
        records == seq![records[0]] + records.skip(1),
        data_fits(records.skip(1)),
        rdata(records[0]) matches Ok(data) ==> data.len() < 0x1_0000,
{
    let rest = records.skip(1);
    assert(records =~= seq![records[0]] + rest);
    assert(forall|i: int| 0 <= i < rest.len() ==> #[trigger] rest[i] == records[i + 1]);
}

/// Answers, read by a reader of the classic DNS.
#[verifier::spinoff_prover]
#[verifier::rlimit(40)]
proof fn lemma_answers_told(front: Seq<u8>, records: Seq<Record>)
    requires
        front.len() >= 12,
        data_fits(records),
        name_at(front + answers_bytes(records), 12, 1) is Some,
    ensures
        answers_at(front + answers_bytes(records), front.len() as int, answer_count(records))
            == Some(told_of(records)),
    decreases records.len(),
{
    if records.len() > 0 {
        let first = records[0];
        let rest = records.skip(1);
        let back = answers_bytes(rest);
        lemma_rest_fits(records);
        lemma_answers_concat(seq![first], rest);
        lemma_answers_single(first);
        match rdata(first) {
            Ok(data) => {
                let answer = answer_bytes(first, data);
                lemma_regroup(front, answer, back);
                lemma_answers_told(front + answer, rest);
                lemma_answer_told(front, first, data, back, answer_count(rest), told_of(rest));
            },
            Err(_) => {
                assert(answers_bytes(seq![first]) =~= Seq::<u8>::empty());
                lemma_regroup(front, back, back);
                lemma_answers_told(front, rest);
            },
        }
    }
}

/// The question of a response is passed by a reader of the classic DNS, and
/// the name in it can be pointed to.
proof fn lemma_question_passed(bytes: Seq<u8>, name: Seq<char>, start: int)
    requires
        valid_name(name),
        name_bytes(name) is Some,
        start == 16 + name_bytes(name)->0.len(),
        start <= bytes.len(),
        bytes.subrange(12, start - 4) == name_bytes(name)->0,
    ensures
        questions_end(bytes, 12, 1) == Some(start),
        name_at(bytes, 12, 1) is Some,
{
    let coded = name_bytes(name)->0;
    let labels = labels_of(name);
    let inner = label_bytes(labels)->0;
    assert forall|j: int| 0 <= j < coded.len() implies bytes[12 + j] == coded[j] by {
        assert(bytes.subrange(12, start - 4)[j] == coded[j]);
    }
    assert(bytes.subrange(12, 12 + inner.len() as int) =~= inner);
    assert(bytes[12 + inner.len() as int] == coded[inner.len() as int]);
    lemma_labels_passed(bytes, 12, labels, 0);
    lemma_labels_passed(bytes, 12, labels, 1);
    assert(questions_end(bytes, start, 0) == Some(start));
}

/// What a reader of the classic DNS makes of the header, before it looks at
/// the answers.
proof fn lemma_header_told(bytes: Seq<u8>, id: u16, start: int, found: Seq<(u16, Seq<u8>)>)
    requires
        bytes.len() >= 12,
        value16(bytes, 0) == id,
        value16(bytes, 2) == 0x8400 || value16(bytes, 2) == 0x8403,
        value16(bytes, 4) == 1,
        questions_end(bytes, 12, 1) == Some(start),
        value16(bytes, 2) == 0x8400 ==> answers_at(bytes, start, value16(bytes, 6) as nat) == Some(
            found,
        ),
    ensures
        value16(bytes, 2) == 0x8400 ==> answers_in(bytes, id) == Some(found),
        value16(bytes, 2) == 0x8403 ==> answers_in(bytes, id) == Some(
            Seq::<(u16, Seq<u8>)>::empty(),
        ),
{
    assert(bytes[2] == 0x84);
    assert(bytes[3] == 0 || bytes[3] == 3);
}

/// A response as a reader of the classic DNS takes it.
#[verifier::spinoff_prover]
#[verifier::rlimit(40)]
proof fn lemma_response_told(q: Question, records: Seq<Record>)
    requires
        valid_name(q.name),
        name_bytes(q.name) is Some,
        answer_count(records) < 0x1_0000,
        data_fits(records),
    ensures
        answers_in(response_bytes(q, true, records), q.id) == Some(told_of(records)),
        answers_in(response_bytes(q, false, records), q.id) == Some(
            Seq::<(u16, Seq<u8>)>::empty(),
        ),
{
    let all = response_bytes(q, true, records);
    let none = response_bytes(q, false, records);
    let start = 16 + name_bytes(q.name)->0.len() as int;
    lemma_response_parts(q, true, records);
    lemma_response_parts(q, false, records);
    lemma_question_passed(all, q.name, start);
    lemma_question_passed(none, q.name, start);
    let front = all.take(start);
    assert(all == front + answers_bytes(records)) by {
        assert(all =~= front + all.skip(start));
    }
    lemma_answers_told(front, records);
    lemma_header_told(all, q.id, start, told_of(records));
    lemma_header_told(none, q.id, start, told_of(records));
}

/// A reader of the classic DNS, which takes the same shape, understands a
/// response: it finds the answers for the records in order, and none where the
/// name does not exist.
pub proof fn law_response_read_in_order(q: Question, a: Seq<Record>, b: Seq<Record>)
    requires
        valid_name(q.name),
        name_bytes(q.name) is Some,
        answer_count(a + b) < 0x1_0000,
        data_fits(a),
        data_fits(b),
    ensures
        ({
            let first = answers_in(response_bytes(q, true, a), q.id);
            let second = answers_in(response_bytes(q, true, b), q.id);
            &&& first is Some
            &&& second is Some
            &&& answers_in(response_bytes(q, true, a + b), q.id) == Some(first->0 + second->0)
            &&& answers_in(response_bytes(q, false, a), q.id) matches Some(none) && none.len() == 0
        }),
{
    lemma_answers_concat(a, b);
    assert(data_fits(a + b)) by {
        let all = a + b;
        assert forall|i: int| 0 <= i < all.len() implies (rdata(#[trigger] all[i]) matches Ok(data)
            ==> data.len() < 0x1_0000) by {
            if i < a.len() {
                assert(all[i] == a[i]);
            } else {
                assert(all[i] == b[i - a.len()]);
            }
        }
    }
    lemma_response_told(q, a);
    lemma_response_told(q, b);
    lemma_response_told(q, a + b);
    lemma_told_concat(a, b);
}

/// The answer for one record is read as its own type and data, and as nothing
/// where the data cannot be encoded.
pub proof fn law_response_read_by_record(q: Question, record: Record)
    requires
        valid_name(q.name),
        name_bytes(q.name) is Some,
        rdata(record) matches Ok(data) ==> data.len() < 0x1_0000,
    ensures
        ({
            let read = answers_in(response_bytes(q, true, seq![record]), q.id);
            &&& read is Some
            &&& rdata(record) is Err ==> read->0.len() == 0
            &&& rdata(record) matches Ok(data) ==> read->0 == seq![
                (
                    match record.record_type {
                        RecordType::A => 1u16,
                        RecordType::Aaaa => 28,
                        RecordType::Cname => 5,
                        RecordType::Mx => 15,
                        RecordType::Txt => 16,
                        RecordType::Ns => 2,
                    },
                    data,
                ),
            ]
        }),
{
    lemma_answers_single(record);
    assert(data_fits(seq![record]));
    lemma_response_told(q, seq![record]);
    lemma_told_single(record);
}

/// A query asks what its parts say.
pub proof fn law_query_asks_its_parts(query: DnsQuery)
    ensures
        query@.id == query.id,
        query@.name == query.domain@,
        query@.qtype == query.qtype,
        query@.qclass == query.qclass,
{
}

} // verus!
