//! Domain names.
//!
//! A name works natively on the whole printable Unicode range: emoji,
//! stacks of combining marks, and right-to-left scripts mixed with
//! left-to-right ones are all valid, as long as no scalar value is a control
//! character or a space. There is no limit on length: what bounds a name is
//! memory, and the transport that carries it.

use vstd::prelude::*;
use vstd::utf8::{encode_scalar, encode_utf8};
use crate::text::{chars_of, decimal, decimal_text, join, lemma_encode_concat, split, split_text, texts};

verus! {

// ---------------------------------------------------------------------
// What a name is
// ---------------------------------------------------------------------

/// The control characters (general category `Cc`).
pub open spec fn is_control(c: char) -> bool {
    let v = c as u32;
    v < 0x20 || 0x7f <= v <= 0x9f
}

/// Whether a character may stand in a name.
pub open spec fn printable(c: char) -> bool {
    !is_control(c) && c != ' '
}

/// Whether every character of `s` may stand in a name.
pub open spec fn all_printable(s: Seq<char>) -> bool {
    forall|i: int| 0 <= i < s.len() ==> printable(#[trigger] s[i])
}

/// Whether `k` is the index of the first character that may not stand in a
/// name.
pub open spec fn first_unprintable(s: Seq<char>, k: int) -> bool {
    &&& 0 <= k < s.len()
    &&& !printable(s[k])
    &&& forall|i: int| 0 <= i < k ==> printable(#[trigger] s[i])
}

/// The labels of a name.
pub open spec fn labels_of(s: Seq<char>) -> Seq<Seq<char>> {
    split(s, '.')
}

/// Whether no label is empty.
pub open spec fn labels_filled(s: Seq<char>) -> bool {
    forall|i: int| 0 <= i < labels_of(s).len() ==> (#[trigger] labels_of(s)[i]).len() > 0
}

/// Whether `s` is a domain name.
pub open spec fn valid_name(s: Seq<char>) -> bool {
    s.len() > 0 && all_printable(s) && labels_filled(s)
}

/// Whether `e` is the reason why `s` is no domain name. An unprintable
/// character counts before an empty label, and the first one counts.
pub open spec fn name_refused(s: Seq<char>, e: DomainNameError) -> bool {
    match e {
        DomainNameError::Empty => s.len() == 0,
        DomainNameError::NonPrintableChar { offset } => exists|k: int| #[trigger]
            first_unprintable(s, k) && offset == encode_utf8(s.take(k)).len(),
        DomainNameError::EmptyLabel => s.len() > 0 && all_printable(s) && !labels_filled(s),
    }
}

/// What validating `s` has to give.
pub open spec fn name_checked(s: Seq<char>, r: Result<DomainName, DomainNameError>) -> bool {
    match r {
        Ok(name) => valid_name(s) && name@ == s,
        Err(e) => !valid_name(s) && name_refused(s, e),
    }
}

// ---------------------------------------------------------------------
// The type
// ---------------------------------------------------------------------

/// A validated domain name: a single label or a dotted sequence of labels,
/// in plain Unicode.
#[derive(Debug, PartialEq, Eq, Hash, PartialOrd, Ord)]
pub struct DomainName(String);

/// Why a text is no domain name.
#[derive(Debug, Clone, Copy, PartialEq, Eq)]
pub enum DomainNameError {
    /// The text is empty.
    Empty,
    /// A control character or a space stands at this byte offset.
    NonPrintableChar { offset: usize },
    /// Two dots in a row, or a dot at either end.
    EmptyLabel,
}

impl View for DomainName {
    type V = Seq<char>;

    closed spec fn view(&self) -> Seq<char> {
        self.0@
    }
}

impl Clone for DomainName {
    fn clone(&self) -> (r: Self)
        ensures
            r == *self,
    {
        proof {
            use_type_invariant(self);
        }
        DomainName(self.0.clone())
    }
}

impl DomainNameError {
    /// The message for people.
    pub open spec fn message(self) -> Seq<char> {
        match self {
            DomainNameError::Empty => "domain name must not be empty"@,
            DomainNameError::NonPrintableChar { offset } =>
                "domain name contains a non-printable character at byte offset "@ + decimal(
                offset as nat,
            ),
            DomainNameError::EmptyLabel =>
                "domain label must not be empty (found consecutive or leading/trailing '.')"@,
        }
    }

    /// The message for people.
    pub fn to_string(&self) -> (r: String)
        ensures
            r@ == self.message(),
    {
        match self {
            DomainNameError::Empty => "domain name must not be empty".to_owned(),
            DomainNameError::NonPrintableChar { offset } => {
                let mut out = "domain name contains a non-printable character at byte offset ".to_owned();
                out.append(decimal_text(*offset as u64).as_str());
                out
            },
            DomainNameError::EmptyLabel =>
                "domain label must not be empty (found consecutive or leading/trailing '.')".to_owned(),
        }
    }
}

/// Whether `c` may stand in a name.
fn is_printable(c: char) -> (r: bool)
    ensures
        r == printable(c),
{
    let v: u32 = c as u32;
    !(v < 0x20 || (0x7f <= v && v <= 0x9f)) && c != ' '
}

/// The number of bytes of `c` in UTF-8.
fn width_of(c: char) -> (r: usize)
    ensures
        r == encode_scalar(c as u32).len(),
        1 <= r <= 4,
{
    let v: u32 = c as u32;
    if v < 0x80 {
        1
    } else if v < 0x800 {
        2
    } else if v < 0x10000 {
        3
    } else {
        4
    }
}

/// A prefix with one more character takes that character's bytes more.
proof fn lemma_offset_steps(s: Seq<char>, k: int)
    requires
        0 <= k < s.len(),
    ensures
        encode_utf8(s.take(k + 1)).len() == encode_utf8(s.take(k)).len() + encode_scalar(
            s[k] as u32,
        ).len(),
        encode_utf8(s.take(k + 1)).len() <= encode_utf8(s).len(),
{
    let one = seq![s[k]];
    lemma_encode_concat(s.take(k), one);
    assert(s.take(k + 1) =~= s.take(k) + one);
    assert(one.drop_first() =~= Seq::empty());
    assert(encode_utf8(one.drop_first()).len() == 0);
    lemma_encode_concat(s.take(k + 1), s.skip(k + 1));
    assert(s.take(k + 1) + s.skip(k + 1) =~= s);
}

impl DomainName {
    /// Every value of this type is a domain name.
    #[verifier::type_invariant]
    spec fn inv(self) -> bool {
        valid_name(self.0@)
    }

    /// Validates a text as a domain name.
    ///
    /// Every character is accepted but control characters and the space, so
    /// combining marks, emoji, joined emoji and mixed writing directions
    /// are.
    pub fn new(raw: &str) -> (r: Result<Self, DomainNameError>)
        ensures
            name_checked(raw@, r),
    {
        let chars = chars_of(raw);
        if chars.len() == 0 {
            return Err(DomainNameError::Empty);
        }
        let bytes: usize = raw.as_bytes().len();
        let mut offset: usize = 0;
        let mut i: usize = 0;
        assert(raw@.take(0) =~= Seq::empty());
        while i < chars.len()
            invariant
                chars@ == raw@,
                i <= chars@.len(),
                bytes == encode_utf8(raw@).len(),
                offset == encode_utf8(raw@.take(i as int)).len(),
                forall|j: int| 0 <= j < i ==> printable(#[trigger] raw@[j]),
            decreases chars.len() - i,
        {
            let c = chars[i];
            if !is_printable(c) {
                assert(first_unprintable(raw@, i as int));
                assert(!printable(raw@[i as int]));
                return Err(DomainNameError::NonPrintableChar { offset });
            }
            proof {
                lemma_offset_steps(raw@, i as int);
            }
            offset = offset + width_of(c);
            i = i + 1;
        }
        let labels = split_text(raw, '.');
        let mut j: usize = 0;
        while j < labels.len()
            invariant
                texts(labels@) == labels_of(raw@),
                j <= labels@.len(),
                forall|k: int| 0 <= k < j ==> (#[trigger] labels_of(raw@)[k]).len() > 0,
                raw@.len() > 0,
                all_printable(raw@),
            decreases labels.len() - j,
        {
            let label = chars_of(labels[j].as_str());
            assert(labels_of(raw@)[j as int] == labels@[j as int]@);
            if label.len() == 0 {
                assert(labels_of(raw@)[j as int].len() == 0);
                return Err(DomainNameError::EmptyLabel);
            }
            j = j + 1;
        }
        assert(labels_filled(raw@));
        Ok(DomainName(raw.to_owned()))
    }

    /// The labels of this name, in the order in which they are written.
    pub fn labels(&self) -> (r: Vec<String>)
        ensures
            texts(r@) == labels_of(self@),
            forall|i: int| 0 <= i < r@.len() ==> (#[trigger] r@[i])@.len() > 0,
    {
        proof {
            use_type_invariant(self);
        }
        let r = split_text(self.0.as_str(), '.');
        assert forall|i: int| 0 <= i < r@.len() implies (#[trigger] r@[i])@.len() > 0 by {
            assert(texts(r@)[i] == r@[i]@);
            assert(labels_of(self@)[i].len() > 0);
        }
        r
    }

    /// The text of this name.
    pub fn as_str(&self) -> (r: &str)
        ensures
            r@ == self@,
            valid_name(self@),
    {
        proof {
            use_type_invariant(self);
        }
        self.0.as_str()
    }

    /// A copy of the text of this name.
    pub fn to_string(&self) -> (r: String)
        ensures
            r@ == self@,
    {
        self.0.clone()
    }
}

impl TryFrom<&str> for DomainName {
    type Error = DomainNameError;

    fn try_from(value: &str) -> (r: Result<Self, DomainNameError>)
        ensures
            name_checked(value@, r),
    {
        Self::new(value)
    }
}

impl vstd::std_specs::convert::TryFromSpecImpl<&str> for DomainName {
    // The outcome is stated by `try_from` itself, over the characters.
    open spec fn obeys_try_from_spec() -> bool {
        false
    }

    open spec fn try_from_spec(value: &str) -> Result<Self, DomainNameError> {
        choose|r: Result<Self, DomainNameError>| name_checked(value@, r)
    }
}

// ---------------------------------------------------------------------
// Laws
// ---------------------------------------------------------------------

/// A text is refused for one reason only: two reasons for the same text are
/// the same, and there is none for a valid name.
pub proof fn law_refusal_unique(s: Seq<char>, e: DomainNameError, f: DomainNameError)
    requires
        name_refused(s, e),
    ensures
        !valid_name(s),
        name_refused(s, f) ==> e == f,
{
}

/// The labels of a name, joined by dots, are the name again.
pub proof fn law_labels_join(s: Seq<char>)
    ensures
        join(labels_of(s), '.') == s,
{
    crate::text::lemma_join_split(s, '.');
}

/// Any labels that are printable, filled and without a dot make a valid
/// name, however many and however long, and it has just these labels.
pub proof fn law_any_labels_make_a_name(labels: Seq<Seq<char>>)
    requires
        labels.len() > 0,
        forall|i: int|
            0 <= i < labels.len() ==> (#[trigger] labels[i]).len() > 0 && all_printable(labels[i]),
        forall|i: int, j: int|
            0 <= i < labels.len() && 0 <= j < labels[i].len() ==> #[trigger] labels[i][j] != '.',
    ensures
        valid_name(join(labels, '.')),
        labels_of(join(labels, '.')) == labels,
    decreases labels.len(),
{
    crate::text::lemma_split_join(labels, '.');
    if labels.len() > 1 {
        law_any_labels_make_a_name(labels.drop_last());
        let front = join(labels.drop_last(), '.');
        let whole = join(labels, '.');
        assert forall|i: int| 0 <= i < whole.len() implies printable(#[trigger] whole[i]) by {
            if i < front.len() {
                assert(whole[i] == front[i]);
            } else if i > front.len() {
                assert(whole[i] == labels.last()[i - front.len() - 1]);
                assert(all_printable(labels[labels.len() - 1]));
            }
        }
    } else {
        assert(all_printable(labels[0]));
    }
}

/// Every character may stand in a name but the space and what lies below it,
/// and the delete character with the control characters behind it.
pub proof fn law_printable_ranges(c: char)
    ensures
        printable(c) <==> 0x21 <= c as u32 <= 0x7e || c as u32 >= 0xa0,
{
}

/// The last label is empty where the text ends in a dot or is empty; and no
/// label before it is empty where no dot stands in front or behind another.
proof fn lemma_filled_by_dots(s: Seq<char>)
    ensures
        labels_of(s).len() > 0,
        labels_of(s).last().len() > 0 <==> s.len() > 0 && s.last() != '.',
        (forall|i: int| 0 <= i < labels_of(s).len() - 1 ==> (#[trigger] labels_of(s)[i]).len() > 0)
            <==> (s.len() > 0 ==> s[0] != '.') && (forall|i: int|
            0 <= i < s.len() - 1 ==> !(#[trigger] s[i] == '.' && s[i + 1] == '.')),
    decreases s.len(),
{
    let parts = labels_of(s);
    if s.len() > 0 {
        let t = s.drop_last();
        let before = labels_of(t);
        let n = s.len() - 1;
        lemma_filled_by_dots(t);
        let filled = forall|i: int| 0 <= i < parts.len() - 1 ==> (#[trigger] parts[i]).len() > 0;
        let inner = forall|i: int| 0 <= i < before.len() - 1 ==> (#[trigger] before[i]).len() > 0;
        let plain = s[0] != '.' && (forall|i: int|
            0 <= i < s.len() - 1 ==> !(#[trigger] s[i] == '.' && s[i + 1] == '.'));
        let shorter = (t.len() > 0 ==> t[0] != '.') && (forall|i: int|
            0 <= i < t.len() - 1 ==> !(#[trigger] t[i] == '.' && t[i + 1] == '.'));
        assert(s[n] == s.last());
        if s.last() == '.' {
            assert(parts =~= before.push(Seq::empty()));
            assert(filled <==> inner && before.last().len() > 0) by {
                if filled {
                    assert forall|i: int| 0 <= i < before.len() - 1 implies (
                    #[trigger] before[i]).len() > 0 by {
                        assert(parts[i] == before[i]);
                    }
                    assert(parts[before.len() - 1] == before.last());
                }
                if inner && before.last().len() > 0 {
                    assert forall|i: int| 0 <= i < parts.len() - 1 implies (
                    #[trigger] parts[i]).len() > 0 by {
                        assert(parts[i] == before[i]);
                    }
                }
            }
            assert(plain <==> shorter && t.len() > 0 && t.last() != '.') by {
                if plain {
                    assert(t.len() > 0);
                    assert(t[0] == s[0]);
                    assert(t.last() == s[n - 1]);
                    assert(!(s[n - 1] == '.' && s[n] == '.'));
                    assert forall|i: int| 0 <= i < t.len() - 1 implies !(#[trigger] t[i] == '.'
                        && t[i + 1] == '.') by {
                        assert(s[i] == t[i] && s[i + 1] == t[i + 1]);
                    }
                }
                if shorter && t.len() > 0 && t.last() != '.' {
                    assert(t[0] == s[0]);
                    assert forall|i: int| 0 <= i < s.len() - 1 implies !(#[trigger] s[i] == '.'
                        && s[i + 1] == '.') by {
                        assert(s[i] == t[i]);
                        if i + 1 < n {
                            assert(s[i + 1] == t[i + 1]);
                        } else {
                            assert(t.last() == t[i]);
                        }
                    }
                }
            }
        } else {
            assert(parts =~= before.drop_last().push(before.last().push(s.last())));
            assert(filled <==> inner) by {
                if filled {
                    assert forall|i: int| 0 <= i < before.len() - 1 implies (
                    #[trigger] before[i]).len() > 0 by {
                        assert(parts[i] == before[i]);
                    }
                }
                if inner {
                    assert forall|i: int| 0 <= i < parts.len() - 1 implies (
                    #[trigger] parts[i]).len() > 0 by {
                        assert(parts[i] == before[i]);
                    }
                }
            }
            assert(plain <==> shorter) by {
                if plain {
                    assert forall|i: int| 0 <= i < t.len() - 1 implies !(#[trigger] t[i] == '.'
                        && t[i + 1] == '.') by {
                        assert(s[i] == t[i] && s[i + 1] == t[i + 1]);
                    }
                    if t.len() > 0 {
                        assert(t[0] == s[0]);
                    }
                }
                if shorter {
                    if t.len() > 0 {
                        assert(t[0] == s[0]);
                    }
                    assert forall|i: int| 0 <= i < s.len() - 1 implies !(#[trigger] s[i] == '.'
                        && s[i + 1] == '.') by {
                        assert(s[i] == t[i]);
                        if i + 1 < n {
                            assert(s[i + 1] == t[i + 1]);
                        }
                    }
                }
            }
        }
    }
}

/// A text is a domain name exactly where it is not empty, has no space and no
/// control character, no dot at either end and no two dots in a row. Nothing
/// else is asked of it, neither of its script nor of its length.
pub proof fn law_valid_name_by_chars(s: Seq<char>)
    ensures
        valid_name(s) <==> s.len() > 0 && s[0] != '.' && s.last() != '.' && (forall|i: int|
            0 <= i < s.len() ==> (0x21 <= #[trigger] s[i] as u32 <= 0x7e || s[i] as u32 >= 0xa0))
            && (forall|i: int|
            0 <= i < s.len() - 1 ==> !(#[trigger] s[i] == '.' && s[i + 1] == '.')),
{
    let parts = labels_of(s);
    lemma_filled_by_dots(s);
    let inner = forall|i: int| 0 <= i < parts.len() - 1 ==> (#[trigger] parts[i]).len() > 0;
    assert(labels_filled(s) <==> inner && parts.last().len() > 0) by {
        if inner && parts.last().len() > 0 {
            assert forall|i: int| 0 <= i < parts.len() implies (#[trigger] parts[i]).len() > 0 by {
                if i == parts.len() - 1 {
                    assert(parts[i] == parts.last());
                }
            }
        }
        if labels_filled(s) {
            assert(parts[parts.len() - 1].len() > 0);
        }
    }
    let ranged = forall|i: int|
        0 <= i < s.len() ==> (0x21 <= #[trigger] s[i] as u32 <= 0x7e || s[i] as u32 >= 0xa0);
    assert(all_printable(s) <==> ranged) by {
        if all_printable(s) {
            assert forall|i: int| 0 <= i < s.len() implies (0x21 <= #[trigger] s[i] as u32 <= 0x7e
                || s[i] as u32 >= 0xa0) by {
                assert(printable(s[i]));
                law_printable_ranges(s[i]);
            }
        }
        if ranged {
            assert forall|i: int| 0 <= i < s.len() implies printable(#[trigger] s[i]) by {
                assert(0x21 <= s[i] as u32 <= 0x7e || s[i] as u32 >= 0xa0);
            }
        }
    }
}

/// A text that is no name is refused for what is wrong with it: that it is
/// empty; else the first character that may not stand in a name, by the number
/// of bytes before it; else an empty label.
pub proof fn law_refused_for_what_is_wrong(
    front: Seq<char>,
    c: char,
    back: Seq<char>,
    offset: usize,
)
    requires
        forall|i: int|
            0 <= i < front.len() ==> (0x21 <= #[trigger] front[i] as u32 <= 0x7e || front[i] as u32
                >= 0xa0),
        c as u32 <= 0x20 || 0x7f <= c as u32 <= 0x9f,
        offset == encode_utf8(front).len(),
    ensures
        name_refused(Seq::empty(), DomainNameError::Empty),
        name_refused(front.push(c) + back, DomainNameError::NonPrintableChar { offset }),
        front.len() > 0 && !valid_name(front) ==> name_refused(front, DomainNameError::EmptyLabel),
{
    let s = front.push(c) + back;
    let k = front.len() as int;
    assert(s.take(k) =~= front);
    assert forall|i: int| 0 <= i < front.len() implies printable(#[trigger] front[i]) by {
        assert(0x21 <= front[i] as u32 <= 0x7e || front[i] as u32 >= 0xa0);
    }
    assert forall|i: int| 0 <= i < k implies printable(#[trigger] s[i]) by {
        assert(s[i] == front[i]);
    }
    assert(first_unprintable(s, k));
}

/// A text that is accepted as a name is kept as it was written, and one that
/// is not is refused for a reason that holds.
pub proof fn law_name_kept_as_written(s: Seq<char>, r: Result<DomainName, DomainNameError>)
    requires
        name_checked(s, r),
    ensures
        r is Ok <==> valid_name(s),
        r matches Ok(name) ==> name@ == s,
        r matches Err(e) ==> name_refused(s, e),
{
}

} // verus!
