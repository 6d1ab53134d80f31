//! Records as JSON, as they are signed: the text for a list of records, and
//! that it can be read in one way only.

use vstd::prelude::*;
use crate::text::{decimal, decimal_text, hex_digit, law_decimal_injective, lemma_decimal_digits};
use crate::zone::{Record, RecordType};

verus! {

// ---------------------------------------------------------------------
// The text
// ---------------------------------------------------------------------

/// One character of a JSON string.
pub open spec fn json_char(c: char) -> Seq<char> {
    let v = c as u32 as int;
    if c == '"' {
        seq!['\\', '"']
    } else if c == '\\' {
        seq!['\\', '\\']
    } else if v == 8 {
        seq!['\\', 'b']
    } else if v == 9 {
        seq!['\\', 't']
    } else if v == 10 {
        seq!['\\', 'n']
    } else if v == 12 {
        seq!['\\', 'f']
    } else if v == 13 {
        seq!['\\', 'r']
    } else if v < 32 {
        seq!['\\', 'u', '0', '0', hex_digit(v / 16), hex_digit(v % 16)]
    } else {
        seq![c]
    }
}

/// The contents of a JSON string.
pub open spec fn json_chars(s: Seq<char>) -> Seq<char>
    decreases s.len(),
{
    if s.len() == 0 {
        Seq::empty()
    } else {
        json_chars(s.drop_last()) + json_char(s.last())
    }
}

/// A JSON string.
pub open spec fn json_string(s: Seq<char>) -> Seq<char> {
    seq!['"'] + json_chars(s) + seq!['"']
}

/// The name of a record type.
pub open spec fn type_label(record_type: RecordType) -> Seq<char> {
    match record_type {
        RecordType::A => "A"@,
        RecordType::Aaaa => "AAAA"@,
        RecordType::Cname => "CNAME"@,
        RecordType::Mx => "MX"@,
        RecordType::Txt => "TXT"@,
        RecordType::Ns => "NS"@,
    }
}

/// A record as a JSON object.
pub open spec fn record_json(record: Record) -> Seq<char> {
    "{\"name\":"@ + json_string(record.name@) + ",\"type\":\""@ + type_label(record.record_type)
        + "\",\"ttl_secs\":"@ + decimal(record.ttl_secs as nat) + ",\"value\":"@ + json_string(
        record.value@,
    ) + "}"@
}

/// Records with commas between them.
pub open spec fn records_list(records: Seq<Record>) -> Seq<char>
    decreases records.len(),
{
    if records.len() == 0 {
        Seq::empty()
    } else if records.len() == 1 {
        record_json(records[0])
    } else {
        records_list(records.drop_last()) + ","@ + record_json(records.last())
    }
}

/// Records as a JSON array.
pub open spec fn records_json(records: Seq<Record>) -> Seq<char> {
    "["@ + records_list(records) + "]"@
}

/// `serde_json::to_string` of a text is the JSON string: a quotation mark, a
/// backslash and the control characters below the space are escaped, all
/// other characters stand as they are. It does not fail on a text.
#[verifier::external_body]
fn json_text(s: &str) -> (r: String)
    ensures
        r@ == json_string(s@),
{
    serde_json::to_string(s).unwrap_or_default()
}

/// The name of a record type.
pub fn record_type_text(record_type: RecordType) -> (r: &'static str)
    ensures
        r@ == type_label(record_type),
{
    match record_type {
        RecordType::A => "A",
        RecordType::Aaaa => "AAAA",
        RecordType::Cname => "CNAME",
        RecordType::Mx => "MX",
        RecordType::Txt => "TXT",
        RecordType::Ns => "NS",
    }
}

/// Appends a record as a JSON object.
fn push_record_json(out: &mut String, record: &Record)
    ensures
        final(out)@ == old(out)@ + record_json(*record),
{
    out.append("{\"name\":");
    out.append(json_text(record.name.as_str()).as_str());
    out.append(",\"type\":\"");
    out.append(record_type_text(record.record_type));
    out.append("\",\"ttl_secs\":");
    out.append(decimal_text(record.ttl_secs as u64).as_str());
    out.append(",\"value\":");
    out.append(json_text(record.value.as_str()).as_str());
    out.append("}");
    assert(out@ =~= old(out)@ + record_json(*record));
}

/// Records as a JSON array.
pub fn records_json_text(records: &[Record]) -> (r: String)
    ensures
        r@ == records_json(records@),
{
    let mut out = String::new();
    out.append("[");
    let ghost front = out@;
    assert(front =~= "["@);
    let mut i: usize = 0;
    assert(records@.take(0) =~= Seq::empty());
    assert(out@ =~= front + records_list(records@.take(0)));
    while i < records.len()
        invariant
            i <= records@.len(),
            out@ == front + records_list(records@.take(i as int)),
        decreases records.len() - i,
    {
        assert(records@.take(i + 1).drop_last() =~= records@.take(i as int));
        if i > 0 {
            out.append(",");
        }
        push_record_json(&mut out, &records[i]);
        assert(out@ =~= front + records_list(records@.take(i + 1)));
        i = i + 1;
    }
    assert(records@.take(i as int) =~= records@);
    out.append("]");
    assert(out@ =~= records_json(records@));
    out
}

// ---------------------------------------------------------------------
// Reading it back
// ---------------------------------------------------------------------

/// Whether two lists of records say the same.
pub open spec fn same_records(a: Seq<Record>, b: Seq<Record>) -> bool {
    &&& a.len() == b.len()
    &&& forall|i: int| 0 <= i < a.len() ==> same_record(#[trigger] a[i], b[i])
}

/// Whether two records say the same.
pub open spec fn same_record(a: Record, b: Record) -> bool {
    &&& a.name@ == b.name@
    &&& a.record_type == b.record_type
    &&& a.ttl_secs == b.ttl_secs
    &&& a.value@ == b.value@
}

/// If two texts are equal and their first parts have the same length, then
/// so are both parts.
pub proof fn lemma_cut(a: Seq<char>, x: Seq<char>, b: Seq<char>, y: Seq<char>)
    requires
        a + x == b + y,
        a.len() == b.len(),
    ensures
        a == b,
        x == y,
{
    assert(a =~= (a + x).take(a.len() as int));
    assert(b =~= (b + y).take(a.len() as int));
    assert(x =~= (a + x).skip(a.len() as int));
    assert(y =~= (b + y).skip(a.len() as int));
}

/// The contents of a JSON string, from the front.
proof fn lemma_json_chars_front(s: Seq<char>)
    requires
        s.len() > 0,
    ensures
        json_chars(s) == json_char(s[0]) + json_chars(s.skip(1)),
    decreases s.len(),
{
    if s.len() == 1 {
        assert(s.drop_last() =~= Seq::empty());
        assert(s.skip(1) =~= Seq::empty());
        reveal_with_fuel(json_chars, 2);
        assert(json_chars(s) =~= json_char(s[0]));
        assert(json_char(s[0]) + json_chars(s.skip(1)) =~= json_char(s[0]));
    } else {
        lemma_json_chars_front(s.drop_last());
        assert(s.drop_last().skip(1) =~= s.skip(1).drop_last());
        assert(json_chars(s) =~= json_char(s[0]) + json_chars(s.skip(1)));
    }
}

/// One character of a JSON string is not the beginning of another, and does
/// not begin with a quotation mark.
proof fn lemma_json_char_cut(c: char, x: Seq<char>, d: char, y: Seq<char>)
    requires
        json_char(c) + x == json_char(d) + y,
    ensures
        c == d,
        x == y,
{
    let a = json_char(c) + x;
    let b = json_char(d) + y;
    let v = c as u32 as int;
    let w = d as u32 as int;
    assert(a[0] == json_char(c)[0]);
    assert(b[0] == json_char(d)[0]);
    if json_char(c)[0] == '\\' {
        assert(a[1] == json_char(c)[1]);
        assert(b[1] == json_char(d)[1]);
        if json_char(c).len() == 6 && json_char(d).len() == 6 {
            assert(a[4] == hex_digit(v / 16) && a[5] == hex_digit(v % 16));
            assert(b[4] == hex_digit(w / 16) && b[5] == hex_digit(w % 16));
            assert(v / 16 == w / 16 && v % 16 == w % 16);
            assert(v == w);
        }
    }
    assert(c == d);
    lemma_cut(json_char(c), x, json_char(d), y);
}

/// The end of a JSON string can be told from within.
proof fn lemma_json_chars_cut(s: Seq<char>, x: Seq<char>, t: Seq<char>, y: Seq<char>)
    requires
        json_chars(s) + (seq!['"'] + x) == json_chars(t) + (seq!['"'] + y),
    ensures
        s == t,
        x == y,
    decreases s.len(),
{
    let a = json_chars(s) + (seq!['"'] + x);
    let b = json_chars(t) + (seq!['"'] + y);
    if s.len() > 0 {
        lemma_json_chars_front(s);
        assert(a[0] == json_char(s[0])[0]);
    } else {
        assert(a[0] == '"');
    }
    if t.len() > 0 {
        lemma_json_chars_front(t);
        assert(b[0] == json_char(t[0])[0]);
    } else {
        assert(b[0] == '"');
    }
    if s.len() > 0 && t.len() > 0 {
        let r = json_chars(s.skip(1)) + (seq!['"'] + x);
        let q = json_chars(t.skip(1)) + (seq!['"'] + y);
        assert(a =~= json_char(s[0]) + r);
        assert(b =~= json_char(t[0]) + q);
        lemma_json_char_cut(s[0], r, t[0], q);
        lemma_json_chars_cut(s.skip(1), x, t.skip(1), y);
        assert(s =~= seq![s[0]] + s.skip(1));
        assert(t =~= seq![t[0]] + t.skip(1));
    } else {
        assert(s =~= t);
        lemma_cut(seq!['"'], x, seq!['"'], y);
    }
}

/// The end of a JSON string can be told.
proof fn lemma_json_string_cut(s: Seq<char>, x: Seq<char>, t: Seq<char>, y: Seq<char>)
    requires
        json_string(s) + x == json_string(t) + y,
    ensures
        s == t,
        x == y,
{
    let r = json_chars(s) + (seq!['"'] + x);
    let q = json_chars(t) + (seq!['"'] + y);
    assert(json_string(s) + x =~= seq!['"'] + r);
    assert(json_string(t) + y =~= seq!['"'] + q);
    lemma_cut(seq!['"'], r, seq!['"'], q);
    lemma_json_chars_cut(s, x, t, y);
}

/// The end of a number can be told where no digit follows.
proof fn lemma_decimal_cut(n: nat, x: Seq<char>, m: nat, y: Seq<char>)
    requires
        decimal(n) + x == decimal(m) + y,
        x.len() > 0 && y.len() > 0,
        x[0] == ',' && y[0] == ',',
    ensures
        n == m,
        x == y,
{
    let a = decimal(n) + x;
    let b = decimal(m) + y;
    lemma_decimal_digits(n);
    lemma_decimal_digits(m);
    assert(a[decimal(n).len() as int] == ',');
    assert(b[decimal(m).len() as int] == ',');
    if decimal(n).len() < decimal(m).len() {
        assert(b[decimal(n).len() as int] == decimal(m)[decimal(n).len() as int]);
    } else if decimal(m).len() < decimal(n).len() {
        assert(a[decimal(m).len() as int] == decimal(n)[decimal(m).len() as int]);
    }
    lemma_cut(decimal(n), x, decimal(m), y);
    law_decimal_injective(n, m);
}

/// The end of the name of a record type can be told by the quotation mark
/// behind it.
proof fn lemma_label_cut(a: RecordType, x: Seq<char>, b: RecordType, y: Seq<char>)
    requires
        type_label(a) + x == type_label(b) + y,
        x.len() > 0 && y.len() > 0,
        x[0] == '"' && y[0] == '"',
    ensures
        a == b,
        x == y,
{
    reveal_strlit("A");
    reveal_strlit("AAAA");
    reveal_strlit("CNAME");
    reveal_strlit("MX");
    reveal_strlit("TXT");
    reveal_strlit("NS");
    let s = type_label(a) + x;
    let t = type_label(b) + y;
    let n = type_label(a).len() as int;
    let m = type_label(b).len() as int;
    assert(s[n] == '"' && t[m] == '"');
    assert(s[0] == type_label(a)[0] && t[0] == type_label(b)[0]);
    if n < m {
        assert(t[n] == type_label(b)[n]);
    } else if m < n {
        assert(s[m] == type_label(a)[m]);
    }
    lemma_cut(type_label(a), x, type_label(b), y);
}

/// What follows the name in a record.
spec fn after_name(record: Record) -> Seq<char> {
    ",\"type\":\""@ + (type_label(record.record_type) + after_type(record))
}

/// What follows the type in a record.
spec fn after_type(record: Record) -> Seq<char> {
    "\",\"ttl_secs\":"@ + (decimal(record.ttl_secs as nat) + after_ttl(record))
}

/// What follows the time to live in a record.
spec fn after_ttl(record: Record) -> Seq<char> {
    ",\"value\":"@ + (json_string(record.value@) + "}"@)
}

proof fn lemma_record_parts(record: Record, x: Seq<char>)
    ensures
        record_json(record) == "{\"name\":"@ + (json_string(record.name@) + after_name(record)),
        after_name(record) + x == ",\"type\":\""@ + (type_label(record.record_type) + (after_type(
            record,
        ) + x)),
        after_type(record) + x == "\",\"ttl_secs\":"@ + (decimal(record.ttl_secs as nat) + (
        after_ttl(record) + x)),
        after_ttl(record) + x == ",\"value\":"@ + (json_string(record.value@) + ("}"@ + x)),
{
    assert(record_json(record) =~= "{\"name\":"@ + (json_string(record.name@) + after_name(
        record,
    )));
    assert(after_name(record) + x =~= ",\"type\":\""@ + (type_label(record.record_type) + (
    after_type(record) + x)));
    assert(after_type(record) + x =~= "\",\"ttl_secs\":"@ + (decimal(record.ttl_secs as nat) + (
    after_ttl(record) + x)));
    assert(after_ttl(record) + x =~= ",\"value\":"@ + (json_string(record.value@) + ("}"@ + x)));
}

/// The end of a record can be told, and what it says.
#[verifier::spinoff_prover]
#[verifier::rlimit(40)]
proof fn lemma_record_cut(a: Record, x: Seq<char>, b: Record, y: Seq<char>)
    requires
        record_json(a) + x == record_json(b) + y,
    ensures
        same_record(a, b),
        x == y,
{
    reveal_strlit(",\"value\":");
    reveal_strlit("\",\"ttl_secs\":");
    lemma_record_parts(a, x);
    lemma_record_parts(b, y);
    let front = "{\"name\":"@;
    let r = json_string(a.name@) + (after_name(a) + x);
    let q = json_string(b.name@) + (after_name(b) + y);
    assert(record_json(a) + x =~= front + r);
    assert(record_json(b) + y =~= front + q);
    lemma_cut(front, r, front, q);
    lemma_json_string_cut(a.name@, after_name(a) + x, b.name@, after_name(b) + y);
    let r = type_label(a.record_type) + (after_type(a) + x);
    let q = type_label(b.record_type) + (after_type(b) + y);
    lemma_cut(",\"type\":\""@, r, ",\"type\":\""@, q);
    assert((after_type(a) + x)[0] == '"');
    assert((after_type(b) + y)[0] == '"');
    lemma_label_cut(a.record_type, after_type(a) + x, b.record_type, after_type(b) + y);
    let r = decimal(a.ttl_secs as nat) + (after_ttl(a) + x);
    let q = decimal(b.ttl_secs as nat) + (after_ttl(b) + y);
    lemma_cut("\",\"ttl_secs\":"@, r, "\",\"ttl_secs\":"@, q);
    assert((after_ttl(a) + x)[0] == ',');
    assert((after_ttl(b) + y)[0] == ',');
    lemma_decimal_cut(a.ttl_secs as nat, after_ttl(a) + x, b.ttl_secs as nat, after_ttl(b) + y);
    let r = json_string(a.value@) + ("}"@ + x);
    let q = json_string(b.value@) + ("}"@ + y);
    lemma_cut(",\"value\":"@, r, ",\"value\":"@, q);
    lemma_json_string_cut(a.value@, "}"@ + x, b.value@, "}"@ + y);
    lemma_cut("}"@, x, "}"@, y);
}

/// A list of records, from the front.
proof fn lemma_list_front(records: Seq<Record>)
    requires
        records.len() >= 2,
    ensures
        records_list(records) == record_json(records[0]) + (","@ + records_list(records.skip(1))),
    decreases records.len(),
{
    let rest = records.skip(1);
    if records.len() == 2 {
        reveal_with_fuel(records_list, 2);
        assert(records.drop_last()[0] == records[0]);
        assert(rest[0] == records[1]);
        assert(records_list(records) =~= record_json(records[0]) + (","@ + records_list(rest)));
    } else {
        lemma_list_front(records.drop_last());
        assert(records.drop_last().skip(1) =~= rest.drop_last());
        assert(records_list(records) =~= record_json(records[0]) + (","@ + records_list(rest)));
    }
}

/// A list of records can be read in one way only.
pub proof fn lemma_list_injective(a: Seq<Record>, b: Seq<Record>)
    requires
        records_list(a) == records_list(b),
    ensures
        same_records(a, b),
    decreases a.len(),
{
    reveal_strlit("{\"name\":");
    if a.len() > 0 {
        lemma_list_first(a);
    }
    if b.len() > 0 {
        lemma_list_first(b);
    }
    if a.len() > 0 && b.len() > 0 {
        let none: Seq<char> = Seq::empty();
        let x = if a.len() == 1 { none } else { ","@ + records_list(a.skip(1)) };
        let y = if b.len() == 1 { none } else { ","@ + records_list(b.skip(1)) };
        assert(records_list(a) =~= record_json(a[0]) + x) by {
            if a.len() > 1 {
                lemma_list_front(a);
            }
        }
        assert(records_list(b) =~= record_json(b[0]) + y) by {
            if b.len() > 1 {
                lemma_list_front(b);
            }
        }
        lemma_record_cut(a[0], x, b[0], y);
        reveal_strlit(",");
        if a.len() > 1 {
            assert(x.len() > 0);
            assert(b.len() > 1);
            lemma_cut(","@, records_list(a.skip(1)), ","@, records_list(b.skip(1)));
            lemma_list_injective(a.skip(1), b.skip(1));
            assert forall|i: int| 0 <= i < a.len() implies same_record(#[trigger] a[i], b[i]) by {
                if i > 0 {
                    assert(a.skip(1)[i - 1] == a[i]);
                    assert(b.skip(1)[i - 1] == b[i]);
                }
            }
        } else {
            assert(y.len() == 0);
            assert(b.len() == 1);
        }
    }
}

/// A list that is not empty begins with a brace and ends with one.
proof fn lemma_list_first(records: Seq<Record>)
    requires
        records.len() > 0,
    ensures
        records_list(records).len() >= 4,
        records_list(records)[0] == '{',
        records_list(records)[1] == '"',
        records_list(records)[2] == 'n',
        records_list(records).last() == '}',
    decreases records.len(),
{
    reveal_strlit("{\"name\":");
    reveal_strlit("}");
    assert(record_json(records.last()).last() == '}');
    if records.len() > 1 {
        lemma_list_first(records.drop_last());
    } else {
        assert(record_json(records[0])[0] == '{');
        assert(record_json(records[0])[1] == '"');
        assert(record_json(records[0])[2] == 'n');
    }
}

/// Within a JSON string a quotation mark stands behind a backslash.
proof fn lemma_quote_escaped(s: Seq<char>, j: int)
    requires
        0 <= j < json_chars(s).len(),
        json_chars(s)[j] == '"',
    ensures
        j > 0,
        json_chars(s)[j - 1] == '\\',
    decreases s.len(),
{
    let front = json_chars(s.drop_last());
    let last = json_char(s.last());
    if j < front.len() {
        lemma_quote_escaped(s.drop_last(), j);
    } else {
        assert(last[j - front.len()] == '"');
    }
}

/// A brace that is followed by a quotation mark and the letter `n` begins a
/// record: there is none within one.
proof fn lemma_record_opens_once(record: Record, i: int)
    requires
        0 < i,
        i + 2 < record_json(record).len(),
        record_json(record)[i] == '{',
        record_json(record)[i + 1] == '"',
    ensures
        record_json(record)[i + 2] != 'n',
{
    reveal_strlit("{\"name\":");
    reveal_strlit(",\"type\":\"");
    reveal_strlit("\",\"ttl_secs\":");
    reveal_strlit(",\"value\":");
    reveal_strlit("}");
    let text = record_json(record);
    let name = json_chars(record.name@);
    let label = type_label(record.record_type);
    let ttl = decimal(record.ttl_secs as nat);
    let value = json_chars(record.value@);
    // Where the parts between the two strings begin.
    let p = 8int;
    let q = p + name.len() + 2;
    let r = q + 9;
    let t = r + label.len();
    let u = t + 13;
    let v = u + ttl.len();
    let w = v + 9;
    let z = w + value.len() + 2;
    lemma_decimal_digits(record.ttl_secs as nat);
    assert(text.len() == z + 1);
    assert(text[z] == '}');
    assert(text[q] == ',');
    if i < p {
        assert(text[i] == "{\"name\":"@[i]);
    } else if i < q {
        assert(text[i] == json_string(record.name@)[i - p]);
        assert(text[i + 1] == if i + 1 < q {
            json_string(record.name@)[i + 1 - p]
        } else {
            ','
        });
        if i + 2 < q {
            lemma_quote_escaped(record.name@, i - p);
        }
    } else if i < r {
        assert(text[i] == ",\"type\":\""@[i - q]);
    } else if i < t {
        assert(text[i] == label[i - r]);
        lemma_label_plain(record.record_type, i - r);
    } else if i < u {
        assert(text[i] == "\",\"ttl_secs\":"@[i - t]);
    } else if i < v {
        assert(text[i] == ttl[i - u]);
    } else if i < w {
        assert(text[i] == ",\"value\":"@[i - v]);
    } else if i < z {
        assert(text[i] == json_string(record.value@)[i - w]);
        assert(text[i + 1] == if i + 1 < z {
            json_string(record.value@)[i + 1 - w]
        } else {
            '}'
        });
        if i + 2 < z {
            lemma_quote_escaped(record.value@, i - w);
        }
    }
}

/// The name of a record type has capital letters only.
proof fn lemma_label_plain(record_type: RecordType, i: int)
    requires
        0 <= i < type_label(record_type).len(),
    ensures
        'A' <= type_label(record_type)[i] <= 'Z',
{
    reveal_strlit("A");
    reveal_strlit("AAAA");
    reveal_strlit("CNAME");
    reveal_strlit("MX");
    reveal_strlit("TXT");
    reveal_strlit("NS");
}

/// In a list of records, a record begins in front or behind a comma.
proof fn lemma_list_opens(records: Seq<Record>, i: int)
    requires
        0 < i,
        i + 2 < records_list(records).len(),
        records_list(records)[i] == '{',
        records_list(records)[i + 1] == '"',
        records_list(records)[i + 2] == 'n',
    ensures
        records_list(records)[i - 1] == ',',
    decreases records.len(),
{
    reveal_strlit(",");
    let text = records_list(records);
    if records.len() == 1 {
        lemma_record_opens_once(records[0], i);
    } else {
        let front = records_list(records.drop_last());
        let last = record_json(records.last());
        let n = front.len() as int;
        lemma_list_first(records.drop_last());
        lemma_list_quote(records.drop_last());
        assert(text[n - 1] == front[n - 1]);
        assert(text[n - 2] == front[n - 2]);
        assert(text[n] == ',');
        if i + 2 < n {
            assert(text[i] == front[i] && text[i + 1] == front[i + 1] && text[i + 2] == front[i
                + 2]);
            lemma_list_opens(records.drop_last(), i);
            assert(text[i - 1] == front[i - 1]);
        } else if i > n + 1 {
            let j = i - n - 1;
            assert(text[i] == last[j] && text[i + 1] == last[j + 1] && text[i + 2] == last[j + 2]);
            lemma_record_opens_once(records.last(), j);
        }
    }
}

/// A list that is not empty has a quotation mark before its last brace.
proof fn lemma_list_quote(records: Seq<Record>)
    requires
        records.len() > 0,
    ensures
        records_list(records).len() >= 4,
        records_list(records)[records_list(records).len() - 2] == '"',
{
    reveal_strlit("}");
    let last = records.last();
    let text = record_json(last);
    let n = text.len() as int;
    assert(text[n - 2] == json_string(last.value@).last());
    lemma_list_first(records);
    assert(text.len() >= 4) by {
        reveal_strlit("{\"name\":");
    }
}

/// In the JSON of a list of records, no list begins but the whole.
pub proof fn lemma_json_opens_once(records: Seq<Record>, others: Seq<Record>, k: int)
    requires
        0 <= k < records_json(records).len(),
        records_json(records).skip(k) == records_json(others),
    ensures
        k == 0,
{
    reveal_strlit("[");
    reveal_strlit("]");
    let text = records_json(records);
    let inner = records_list(records);
    let part = records_json(others);
    assert(text.len() == inner.len() + 2);
    assert(forall|j: int| 0 <= j < part.len() ==> part[j] == text[k + j]);
    assert(part[0] == '[');
    if records.len() == 0 {
        assert(text[1] == ']');
    } else {
        lemma_list_first(records);
        assert(text[text.len() - 2] == '}');
        if others.len() == 0 {
            assert(part.len() == 2);
            assert(part[0] == text[text.len() - 2]);
        } else {
            lemma_list_first(others);
            assert(part[1] == '{' && part[2] == '"' && part[3] == 'n');
            assert(text[k + 1] == inner[k] && text[k + 2] == inner[k + 1] && text[k + 3]
                == inner[k + 2]);
            if k > 0 {
                lemma_list_opens(records, k);
                assert(text[k] == inner[k - 1]);
            }
        }
    }
}

// ---------------------------------------------------------------------
// Laws
// ---------------------------------------------------------------------

/// Each record type has the name that it is known by.
pub proof fn law_type_names(record_type: RecordType)
    ensures
        type_label(record_type) == match record_type {
            RecordType::A => "A"@,
            RecordType::Aaaa => "AAAA"@,
            RecordType::Cname => "CNAME"@,
            RecordType::Mx => "MX"@,
            RecordType::Txt => "TXT"@,
            RecordType::Ns => "NS"@,
        },
{
}

/// Records stand in a list in their order, with a comma between any two.
pub proof fn law_list_in_order(a: Seq<Record>, b: Seq<Record>, record: Record)
    requires
        a.len() > 0,
        b.len() > 0,
    ensures
        records_list(a + b) == records_list(a) + seq![','] + records_list(b),
        records_list(seq![record]) == record_json(record),
        records_list(Seq::empty()).len() == 0,
    decreases b.len(),
{
    reveal_strlit(",");
    let all = a + b;
    assert(","@ =~= seq![',']);
    if b.len() == 1 {
        assert(all.drop_last() =~= a);
        assert(records_list(all) =~= records_list(a) + seq![','] + records_list(b));
    } else {
        law_list_in_order(a, b.drop_last(), record);
        assert(all.drop_last() =~= a + b.drop_last());
        assert(records_list(all) =~= records_list(a) + seq![','] + records_list(b));
    }
}

/// Two records that say the same are spelled alike, and two that do not are
/// not: the spelling tells of the name, the type, the time to live and the
/// value, and of nothing else.
pub proof fn law_record_spelled_by_contents(a: Record, b: Record)
    ensures
        record_json(a) == record_json(b) <==> a.name@ == b.name@ && a.record_type == b.record_type
            && a.ttl_secs == b.ttl_secs && a.value@ == b.value@,
{
    let none: Seq<char> = Seq::empty();
    if record_json(a) == record_json(b) {
        lemma_record_cut(a, none, b, none);
    }
}

/// A record is spelled as an object with its name, type, time to live and
/// value, in this order; and a list of records in square brackets.
pub proof fn law_record_spelled(record: Record, records: Seq<Record>)
    ensures
        record_json(record) == "{\"name\":"@ + json_string(record.name@) + ",\"type\":\""@ + (
        match record.record_type {
            RecordType::A => "A"@,
            RecordType::Aaaa => "AAAA"@,
            RecordType::Cname => "CNAME"@,
            RecordType::Mx => "MX"@,
            RecordType::Txt => "TXT"@,
            RecordType::Ns => "NS"@,
        }) + "\",\"ttl_secs\":"@ + decimal(record.ttl_secs as nat) + ",\"value\":"@ + json_string(
            record.value@,
        ) + "}"@,
        records_json(records).len() == records_list(records).len() + 2,
        records_json(records)[0] == '[',
        records_json(records).last() == ']',
        records_json(records).subrange(1, records_json(records).len() - 1) == records_list(records),
{
    reveal_strlit("[");
    reveal_strlit("]");
    let text = records_json(records);
    assert(text.subrange(1, text.len() - 1) =~= records_list(records));
}

/// A text is spelled in quotation marks, character by character: quotation
/// mark and backslash behind a backslash, control characters as escapes, and
/// all others as they are.
pub proof fn law_text_spelled_by_char(a: Seq<char>, b: Seq<char>, c: char)
    ensures
        json_chars(a + b) == json_chars(a) + json_chars(b),
        json_string(a) == seq!['"'] + json_chars(a) + seq!['"'],
        c as u32 >= 32 && c != '"' && c != '\\' ==> json_chars(seq![c]) == seq![c],
        c == '"' || c == '\\' ==> json_chars(seq![c]) == seq!['\\', c],
        (c as u32) < 32 ==> json_chars(seq![c]).len() >= 2 && json_chars(seq![c])[0] == '\\',
    decreases b.len(),
{
    let all = a + b;
    let none: Seq<char> = Seq::empty();
    assert(seq![c].drop_last() =~= none);
    assert(json_chars(none) =~= none);
    assert(json_chars(seq![c]) =~= json_char(c));
    if b.len() == 0 {
        assert(all =~= a);
        assert(json_chars(a) + json_chars(b) =~= json_chars(a));
    } else {
        law_text_spelled_by_char(a, b.drop_last(), c);
        assert(all.drop_last() =~= a + b.drop_last());
        assert(all.last() == b.last());
        assert(json_chars(all) =~= json_chars(a) + json_chars(b));
    }
}

} // verus!
