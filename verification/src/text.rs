//! Text as sequences of Unicode scalar values: splitting and joining on a
//! separator, trimming, ASCII case folding, and the decimal and hexadecimal
//! spellings of numbers.

use vstd::arithmetic::power::pow;
use vstd::prelude::*;
use vstd::utf8::encode_utf8;

verus! {

// ---------------------------------------------------------------------
// Standard-library operations taken on trust
// ---------------------------------------------------------------------

/// `String::push` appends the given character to the end of the string.
pub assume_specification[ String::push ](s: &mut String, c: char)
    ensures
        final(s)@ == old(s)@.push(c),
;

// ---------------------------------------------------------------------
// Characters and strings
// ---------------------------------------------------------------------

/// The character sequences held by a sequence of strings.
pub open spec fn texts(parts: Seq<String>) -> Seq<Seq<char>> {
    Seq::new(parts.len(), |i: int| parts[i]@)
}

/// The characters of `s`, one per scalar value.
pub fn chars_of(s: &str) -> (r: Vec<char>)
    ensures
        r@ == s@,
{
    let mut out: Vec<char> = Vec::new();
    for c in it: s.chars()
        invariant
            it.seq() == s@,
            out@ == s@.take(it.index()),
    {
        out.push(c);
    }
    out
}

/// The string spelled by `chars`.
pub fn string_of(chars: &[char]) -> (r: String)
    ensures
        r@ == chars@,
{
    let mut out = String::new();
    let mut i: usize = 0;
    while i < chars.len()
        invariant
            i <= chars@.len(),
            out@ == chars@.take(i as int),
        decreases chars.len() - i,
    {
        out.push(chars[i]);
        i = i + 1;
    }
    out
}

/// The string spelled by the characters of `chars` in `from..to`.
pub fn string_between(chars: &Vec<char>, from: usize, to: usize) -> (r: String)
    requires
        from <= to <= chars@.len(),
    ensures
        r@ == chars@.subrange(from as int, to as int),
{
    let mut out = String::new();
    let mut i: usize = from;
    while i < to
        invariant
            from <= i <= to <= chars@.len(),
            out@ == chars@.subrange(from as int, i as int),
        decreases to - i,
    {
        out.push(chars[i]);
        i = i + 1;
    }
    out
}

/// The bytes of two texts in a row are the bytes of one after the other.
pub proof fn lemma_encode_concat(a: Seq<char>, b: Seq<char>)
    ensures
        encode_utf8(a + b) == encode_utf8(a) + encode_utf8(b),
    decreases a.len(),
{
    if a.len() == 0 {
        assert(a + b =~= b);
        assert(encode_utf8(a) + encode_utf8(b) =~= encode_utf8(b));
    } else {
        lemma_encode_concat(a.drop_first(), b);
        assert((a + b).drop_first() =~= a.drop_first() + b);
        assert(encode_utf8(a + b) =~= encode_utf8(a) + encode_utf8(b));
    }
}

/// Whether two texts are the same.
pub fn same_text(a: &str, b: &str) -> (r: bool)
    ensures
        r == (a@ == b@),
{
    let x: String = a.to_owned();
    let y: String = b.to_owned();
    x == y
}

// ---------------------------------------------------------------------
// Searching
// ---------------------------------------------------------------------

/// The index of the first `c` from `from` on, or the length.
pub open spec fn index_from(s: Seq<char>, c: char, from: int) -> int
    decreases s.len() - from,
{
    if from < 0 || from >= s.len() {
        s.len() as int
    } else if s[from] == c {
        from
    } else {
        index_from(s, c, from + 1)
    }
}

/// The first occurrence is where the character stands and did not before.
pub proof fn lemma_index_from(s: Seq<char>, c: char, from: int, k: int)
    requires
        0 <= from <= k < s.len(),
        s[k] == c,
        forall|i: int| from <= i < k ==> s[i] != c,
    ensures
        index_from(s, c, from) == k,
    decreases k - from,
{
    if from < k {
        lemma_index_from(s, c, from + 1, k);
    }
}

/// The index of the first `c`, or the length.
pub fn find_char(chars: &Vec<char>, c: char) -> (r: usize)
    ensures
        r == index_from(chars@, c, 0),
        r <= chars@.len(),
        r < chars@.len() ==> chars@[r as int] == c,
{
    let mut i: usize = 0;
    while i < chars.len() && chars[i] != c
        invariant
            i <= chars@.len(),
            index_from(chars@, c, 0) == index_from(chars@, c, i as int),
        decreases chars.len() - i,
    {
        i = i + 1;
    }
    i
}

// ---------------------------------------------------------------------
// Splitting and joining
// ---------------------------------------------------------------------

/// `s` cut at every occurrence of `sep`; a text without one is a single
/// part, and every part may be empty.
pub open spec fn split(s: Seq<char>, sep: char) -> Seq<Seq<char>>
    decreases s.len(),
{
    if s.len() == 0 {
        seq![Seq::empty()]
    } else {
        let before = split(s.drop_last(), sep);
        if s.last() == sep {
            before.push(Seq::empty())
        } else {
            before.drop_last().push(before.last().push(s.last()))
        }
    }
}

/// `parts` in order, with `sep` between neighbours.
pub open spec fn join(parts: Seq<Seq<char>>, sep: char) -> Seq<char>
    decreases parts.len(),
{
    if parts.len() == 0 {
        Seq::empty()
    } else if parts.len() == 1 {
        parts[0]
    } else {
        join(parts.drop_last(), sep).push(sep) + parts.last()
    }
}

/// A split has at least one part, and no part holds the separator.
pub proof fn lemma_split_parts(s: Seq<char>, sep: char)
    ensures
        split(s, sep).len() >= 1,
        forall|i: int, j: int|
            0 <= i < split(s, sep).len() && 0 <= j < split(s, sep)[i].len() ==> #[trigger] split(
                s,
                sep,
            )[i][j] != sep,
    decreases s.len(),
{
    if s.len() > 0 {
        lemma_split_parts(s.drop_last(), sep);
    }
}

/// Joining what a split gave restores the text.
pub proof fn lemma_join_split(s: Seq<char>, sep: char)
    ensures
        join(split(s, sep), sep) == s,
    decreases s.len(),
{
    if s.len() == 0 {
    } else {
        let before = split(s.drop_last(), sep);
        lemma_split_parts(s.drop_last(), sep);
        lemma_join_split(s.drop_last(), sep);
        let parts = split(s, sep);
        if s.last() == sep {
            assert(parts.drop_last() =~= before);
            assert(join(parts, sep) =~= s);
        } else {
            assert(parts.drop_last() =~= before.drop_last());
            if before.len() == 1 {
                assert(join(before, sep) == before[0]);
                assert(parts[0] =~= before[0].push(s.last()));
                assert(join(parts, sep) =~= s);
            } else {
                assert(join(before, sep) == join(before.drop_last(), sep).push(sep)
                    + before.last());
                let stem = join(before.drop_last(), sep).push(sep);
                assert(join(parts, sep) == stem + before.last().push(s.last()));
                assert(stem + before.last().push(s.last()) =~= (stem + before.last()).push(
                    s.last(),
                ));
                assert(s.drop_last().push(s.last()) =~= s);
            }
        }
    }
}

/// Splitting a text that is continued by a separator and a part without one
/// adds exactly that part.
pub proof fn lemma_split_append(s: Seq<char>, part: Seq<char>, sep: char)
    requires
        forall|j: int| 0 <= j < part.len() ==> part[j] != sep,
    ensures
        split(s.push(sep) + part, sep) == split(s, sep).push(part),
    decreases part.len(),
{
    let whole = s.push(sep) + part;
    if part.len() == 0 {
        assert(whole =~= s.push(sep));
        assert(s.push(sep).drop_last() =~= s);
        assert(part =~= Seq::<char>::empty());
    } else {
        lemma_split_append(s, part.drop_last(), sep);
        assert(whole.drop_last() =~= s.push(sep) + part.drop_last());
        let before = split(s, sep).push(part.drop_last());
        assert(before.drop_last() =~= split(s, sep));
        assert(part.drop_last().push(part.last()) =~= part);
    }
}

/// The parts of two texts with a separator between them are the parts of
/// one, then those of the other.
pub proof fn lemma_split_concat(a: Seq<char>, b: Seq<char>, sep: char)
    ensures
        split(a.push(sep) + b, sep) == split(a, sep) + split(b, sep),
    decreases b.len(),
{
    let whole = a.push(sep) + b;
    lemma_split_parts(b, sep);
    if b.len() == 0 {
        assert(whole =~= a.push(sep));
        assert(a.push(sep).drop_last() =~= a);
        assert(split(whole, sep) =~= split(a, sep) + split(b, sep));
    } else {
        lemma_split_concat(a, b.drop_last(), sep);
        lemma_split_parts(b.drop_last(), sep);
        assert(whole.drop_last() =~= a.push(sep) + b.drop_last());
        assert(split(whole, sep) =~= split(a, sep) + split(b, sep));
    }
}

/// No part of a split takes more bytes than the whole.
pub proof fn lemma_split_bytes(s: Seq<char>, sep: char, i: int)
    requires
        0 <= i < split(s, sep).len(),
    ensures
        encode_utf8(split(s, sep)[i]).len() <= encode_utf8(s).len(),
    decreases s.len(),
{
    if s.len() > 0 {
        let front = s.drop_last();
        let one = seq![s.last()];
        lemma_encode_concat(front, one);
        assert(s =~= front + one);
        lemma_split_parts(front, sep);
        let before = split(front, sep);
        if i < split(s, sep).len() - 1 {
            lemma_split_bytes(front, sep, i);
        } else if s.last() != sep {
            lemma_split_bytes(front, sep, before.len() - 1);
            lemma_encode_concat(before.last(), one);
            assert(before.last().push(s.last()) =~= before.last() + one);
        }
    }
}

/// A text without the separator is its own only part.
pub proof fn lemma_split_single(part: Seq<char>, sep: char)
    requires
        forall|j: int| 0 <= j < part.len() ==> part[j] != sep,
    ensures
        split(part, sep) == seq![part],
    decreases part.len(),
{
    if part.len() == 0 {
        assert(part =~= Seq::<char>::empty());
    } else {
        lemma_split_single(part.drop_last(), sep);
        assert(part.drop_last().push(part.last()) =~= part);
        assert(split(part, sep) =~= seq![part]);
    }
}

/// Splitting a join gives the parts back, if there are some and none holds
/// the separator.
pub proof fn lemma_split_join(parts: Seq<Seq<char>>, sep: char)
    requires
        parts.len() >= 1,
        forall|i: int, j: int|
            0 <= i < parts.len() && 0 <= j < parts[i].len() ==> #[trigger] parts[i][j] != sep,
    ensures
        split(join(parts, sep), sep) == parts,
    decreases parts.len(),
{
    if parts.len() == 1 {
        lemma_split_single(parts[0], sep);
        assert(parts =~= seq![parts[0]]);
    } else {
        lemma_split_join(parts.drop_last(), sep);
        lemma_split_append(join(parts.drop_last(), sep), parts.last(), sep);
        assert(parts.drop_last().push(parts.last()) =~= parts);
    }
}

/// Cuts `s` at every `sep`.
pub fn split_text(s: &str, sep: char) -> (r: Vec<String>)
    ensures
        texts(r@) == split(s@, sep),
{
    let chars = chars_of(s);
    let mut out: Vec<String> = Vec::new();
    let mut part = String::new();
    let mut i: usize = 0;
    assert(texts(out@).push(part@) =~= split(s@.take(0), sep));
    while i < chars.len()
        invariant
            chars@ == s@,
            i <= chars@.len(),
            texts(out@).push(part@) == split(s@.take(i as int), sep),
        decreases chars.len() - i,
    {
        let ghost before = texts(out@).push(part@);
        let ghost done = texts(out@);
        assert(s@.take(i + 1).drop_last() =~= s@.take(i as int));
        assert(before.drop_last() =~= done);
        if chars[i] == sep {
            let ghost old_part = part@;
            out.push(part);
            part = String::new();
            assert(texts(out@) =~= done.push(old_part));
        } else {
            part.push(chars[i]);
        }
        i = i + 1;
    }
    let ghost done = texts(out@);
    let ghost old_part = part@;
    out.push(part);
    assert(texts(out@) =~= done.push(old_part));
    assert(s@.take(i as int) =~= s@);
    out
}

/// Joins `parts` with `sep` between neighbours.
pub fn join_text(parts: &Vec<String>, sep: char) -> (r: String)
    ensures
        r@ == join(texts(parts@), sep),
{
    let mut out = String::new();
    let mut i: usize = 0;
    assert(texts(parts@).take(0) =~= Seq::empty());
    while i < parts.len()
        invariant
            i <= parts@.len(),
            out@ == join(texts(parts@).take(i as int), sep),
        decreases parts.len() - i,
    {
        let ghost all = texts(parts@);
        assert(all.take(i + 1).drop_last() =~= all.take(i as int));
        if i > 0 {
            out.push(sep);
        }
        out.append(parts[i].as_str());
        assert(out@ =~= join(all.take(i + 1), sep));
        i = i + 1;
    }
    assert(texts(parts@).take(i as int) =~= texts(parts@));
    out
}

// ---------------------------------------------------------------------
// Case and whitespace
// ---------------------------------------------------------------------

/// `c` with an ASCII capital turned into the small letter.
pub open spec fn lower_char(c: char) -> char {
    if 'A' <= c <= 'Z' {
        ((c as u32) + 32) as char
    } else {
        c
    }
}

/// `s` with every ASCII capital turned into the small letter.
pub open spec fn lower(s: Seq<char>) -> Seq<char> {
    Seq::new(s.len(), |i: int| lower_char(s[i]))
}

/// The scalar values with the Unicode property `White_Space`.
pub open spec fn is_white(c: char) -> bool {
    let v = c as u32;
    ||| 0x9 <= v <= 0xd
    ||| v == 0x20
    ||| v == 0x85
    ||| v == 0xa0
    ||| v == 0x1680
    ||| 0x2000 <= v <= 0x200a
    ||| v == 0x2028
    ||| v == 0x2029
    ||| v == 0x202f
    ||| v == 0x205f
    ||| v == 0x3000
}

/// `s` without the white space at its front.
pub open spec fn trim_front(s: Seq<char>) -> Seq<char>
    decreases s.len(),
{
    if s.len() > 0 && is_white(s[0]) {
        trim_front(s.drop_first())
    } else {
        s
    }
}

/// `s` without the white space at its back.
pub open spec fn trim_back(s: Seq<char>) -> Seq<char>
    decreases s.len(),
{
    if s.len() > 0 && is_white(s.last()) {
        trim_back(s.drop_last())
    } else {
        s
    }
}

/// `s` without the run of `c` at its back.
pub open spec fn trim_back_char(s: Seq<char>, c: char) -> Seq<char>
    decreases s.len(),
{
    if s.len() > 0 && s.last() == c {
        trim_back_char(s.drop_last(), c)
    } else {
        s
    }
}

/// Whether `c` is white space.
pub fn is_white_char(c: char) -> (r: bool)
    ensures
        r == is_white(c),
{
    let v: u32 = c as u32;
    (0x9 <= v && v <= 0xd) || v == 0x20 || v == 0x85 || v == 0xa0 || v == 0x1680 || (0x2000 <= v
        && v <= 0x200a) || v == 0x2028 || v == 0x2029 || v == 0x202f || v == 0x205f || v == 0x3000
}

/// `s` without white space at either end.
pub fn trim_text(s: &str) -> (r: String)
    ensures
        r@ == trim_back(trim_front(s@)),
{
    let chars = chars_of(s);
    let mut from: usize = 0;
    let mut to: usize = chars.len();
    assert(s@.subrange(0, to as int) =~= s@);
    while from < to && is_white_char(chars[from])
        invariant
            from <= to == chars@.len(),
            chars@ == s@,
            trim_front(s@) == trim_front(s@.subrange(from as int, to as int)),
        decreases to - from,
    {
        assert(s@.subrange(from as int, to as int).drop_first() =~= s@.subrange(
            from + 1,
            to as int,
        ));
        from = from + 1;
    }
    let ghost front = trim_front(s@);
    assert(front =~= s@.subrange(from as int, to as int));
    while from < to && is_white_char(chars[to - 1])
        invariant
            from <= to <= chars@.len(),
            chars@ == s@,
            trim_back(front) == trim_back(s@.subrange(from as int, to as int)),
        decreases to - from,
    {
        assert(s@.subrange(from as int, to as int).drop_last() =~= s@.subrange(
            from as int,
            to - 1,
        ));
        to = to - 1;
    }
    string_between(&chars, from, to)
}

/// `s` without the run of `c` at its back.
pub fn trim_end_char(s: &str, c: char) -> (r: String)
    ensures
        r@ == trim_back_char(s@, c),
{
    let chars = chars_of(s);
    let mut to: usize = chars.len();
    assert(s@.take(to as int) =~= s@);
    while 0 < to && chars[to - 1] == c
        invariant
            to <= chars@.len(),
            chars@ == s@,
            trim_back_char(s@, c) == trim_back_char(s@.take(to as int), c),
        decreases to,
    {
        assert(s@.take(to as int).drop_last() =~= s@.take(to - 1));
        to = to - 1;
    }
    let r = string_between(&chars, 0, to);
    assert(r@ =~= s@.take(to as int));
    r
}

/// `s` in ASCII lower case.
pub fn lower_text(s: &str) -> (r: String)
    ensures
        r@ == lower(s@),
{
    let chars = chars_of(s);
    let mut out = String::new();
    let mut i: usize = 0;
    while i < chars.len()
        invariant
            chars@ == s@,
            i <= chars@.len(),
            out@ == lower(s@).take(i as int),
        decreases chars.len() - i,
    {
        let c = chars[i];
        if 'A' <= c && c <= 'Z' {
            out.push(((c as u8) + 32) as char);
        } else {
            out.push(c);
        }
        assert(out@ =~= lower(s@).take(i + 1));
        i = i + 1;
    }
    assert(lower(s@).take(i as int) =~= lower(s@));
    out
}

// ---------------------------------------------------------------------
// Numbers
// ---------------------------------------------------------------------

/// The digit for a value below ten.
pub open spec fn digit(d: int) -> char {
    (48 + d) as char
}

/// The decimal spelling of `n`, without leading zeros.
pub open spec fn decimal(n: nat) -> Seq<char>
    decreases n,
{
    if n < 10 {
        seq![digit(n as int)]
    } else {
        decimal(n / 10).push(digit((n % 10) as int))
    }
}

/// The lower-case hexadecimal digit for a value below sixteen.
pub open spec fn hex_digit(d: int) -> char {
    if d < 10 {
        (48 + d) as char
    } else {
        (87 + d) as char
    }
}

/// Two lower-case hexadecimal digits per byte, high half first.
pub open spec fn hex(bytes: Seq<u8>) -> Seq<char> {
    Seq::new(
        2 * bytes.len(),
        |i: int|
            if i % 2 == 0 {
                hex_digit(bytes[i / 2] as int / 16)
            } else {
                hex_digit(bytes[i / 2] as int % 16)
            },
    )
}

/// Spells `n` in decimal.
pub fn decimal_text(n: u64) -> (r: String)
    ensures
        r@ == decimal(n as nat),
    decreases n,
{
    let last: u64 = n % 10;
    let c = (48u8 + last as u8) as char;
    if n < 10 {
        let mut out = String::new();
        out.push(c);
        assert(out@ =~= decimal(n as nat));
        out
    } else {
        let mut out = decimal_text(n / 10);
        out.push(c);
        out
    }
}

/// Spells a value below sixteen as a hexadecimal digit.
pub fn hex_char(d: u8) -> (r: char)
    requires
        d < 16,
    ensures
        r == hex_digit(d as int),
{
    if d < 10 {
        (48u8 + d) as char
    } else {
        (87u8 + d) as char
    }
}

/// Spells `bytes` in hexadecimal.
pub fn hex_text(bytes: &[u8]) -> (r: String)
    ensures
        r@ == hex(bytes@),
{
    let mut out = String::new();
    let mut i: usize = 0;
    while i < bytes.len()
        invariant
            i <= bytes@.len(),
            out@ == hex(bytes@.take(i as int)),
        decreases bytes.len() - i,
    {
        let b: u8 = bytes[i];
        out.push(hex_char(b / 16));
        out.push(hex_char(b % 16));
        assert(out@ =~= hex(bytes@.take(i + 1)));
        i = i + 1;
    }
    assert(bytes@.take(i as int) =~= bytes@);
    out
}

/// A number is spelled by at least one digit, and by digits only.
pub proof fn lemma_decimal_digits(n: nat)
    ensures
        decimal(n).len() >= 1,
        forall|i: int| 0 <= i < decimal(n).len() ==> '0' <= #[trigger] decimal(n)[i] <= '9',
    decreases n,
{
    if n >= 10 {
        lemma_decimal_digits(n / 10);
    }
}

/// Different numbers are spelled differently.
pub proof fn law_decimal_injective(n: nat, m: nat)
    requires
        decimal(n) == decimal(m),
    ensures
        n == m,
    decreases n,
{
    let a = decimal(n);
    let b = decimal(m);
    lemma_decimal_last(n);
    lemma_decimal_last(m);
    assert(n % 10 == m % 10);
    if n >= 10 {
        lemma_decimal_digits(n / 10);
        assert(a.len() >= 2);
        assert(a.drop_last() =~= decimal(n / 10));
    }
    if m >= 10 {
        lemma_decimal_digits(m / 10);
        assert(b.len() >= 2);
        assert(b.drop_last() =~= decimal(m / 10));
    }
    if n >= 10 && m >= 10 {
        law_decimal_injective(n / 10, m / 10);
    }
}

proof fn lemma_decimal_last(n: nat)
    ensures
        decimal(n).len() >= 1,
        decimal(n).last() as u32 == 48 + n % 10,
{
}

// ---------------------------------------------------------------------
// Laws
// ---------------------------------------------------------------------

/// A search finds the first occurrence, and ends at the end where there is
/// none.
pub proof fn law_index_is_first(s: Seq<char>, c: char, from: int)
    requires
        0 <= from <= s.len(),
    ensures
        from <= index_from(s, c, from) <= s.len(),
        forall|i: int| from <= i < index_from(s, c, from) ==> s[i] != c,
        index_from(s, c, from) < s.len() ==> s[index_from(s, c, from)] == c,
    decreases s.len() - from,
{
    if from < s.len() && s[from] != c {
        law_index_is_first(s, c, from + 1);
    }
}

/// Joining two lists of parts puts one separator between what each of them
/// joins to; a single part stands for itself.
pub proof fn law_join_concat(a: Seq<Seq<char>>, b: Seq<Seq<char>>, part: Seq<char>, sep: char)
    requires
        a.len() > 0,
        b.len() > 0,
    ensures
        join(a + b, sep) == join(a, sep) + seq![sep] + join(b, sep),
        join(seq![part], sep) == part,
        join(Seq::empty(), sep).len() == 0,
    decreases b.len(),
{
    let all = a + b;
    let none: Seq<Seq<char>> = Seq::empty();
    assert(join(none, sep).len() == 0);
    if b.len() == 1 {
        assert(all.drop_last() =~= a);
        assert(join(all, sep) =~= join(a, sep) + seq![sep] + join(b, sep));
    } else {
        law_join_concat(a, b.drop_last(), part, sep);
        assert(all.drop_last() =~= a + b.drop_last());
        assert(join(all, sep) =~= join(a, sep) + seq![sep] + join(b, sep));
    }
}

/// Lower case keeps every character but the ASCII capitals, and each of
/// these becomes the small letter at the same place.
pub proof fn law_lower_by_char(s: Seq<char>, i: int)
    requires
        0 <= i < s.len(),
    ensures
        lower(s).len() == s.len(),
        !('A' <= s[i] <= 'Z') ==> lower(s)[i] == s[i],
        'A' <= s[i] <= 'Z' ==> lower(s)[i] as u32 - 'a' as u32 == s[i] as u32 - 'A' as u32,
{
}

/// White space is the tab and the other line controls, the space, and the
/// spaces of Unicode.
pub proof fn law_white_space(c: char)
    ensures
        c as u32 <= 0x7f ==> (is_white(c) <==> seq![
            '\u{9}',
            '\u{a}',
            '\u{b}',
            '\u{c}',
            '\u{d}',
            ' ',
        ].contains(c)),
        c as u32 > 0x7f ==> (is_white(c) <==> seq![
            '\u{85}',
            '\u{a0}',
            '\u{1680}',
            '\u{2000}',
            '\u{2001}',
            '\u{2002}',
            '\u{2003}',
            '\u{2004}',
            '\u{2005}',
            '\u{2006}',
            '\u{2007}',
            '\u{2008}',
            '\u{2009}',
            '\u{200a}',
            '\u{2028}',
            '\u{2029}',
            '\u{202f}',
            '\u{205f}',
            '\u{3000}',
        ].contains(c)),
{
    let low = seq!['\u{9}', '\u{a}', '\u{b}', '\u{c}', '\u{d}', ' '];
    let high = seq![
        '\u{85}',
        '\u{a0}',
        '\u{1680}',
        '\u{2000}',
        '\u{2001}',
        '\u{2002}',
        '\u{2003}',
        '\u{2004}',
        '\u{2005}',
        '\u{2006}',
        '\u{2007}',
        '\u{2008}',
        '\u{2009}',
        '\u{200a}',
        '\u{2028}',
        '\u{2029}',
        '\u{202f}',
        '\u{205f}',
        '\u{3000}',
    ];
    assert(low[0] == '\u{9}' && low[1] == '\u{a}' && low[2] == '\u{b}' && low[3] == '\u{c}' && low[4]
        == '\u{d}' && low[5] == ' ');
    assert(high[0] == '\u{85}' && high[1] == '\u{a0}' && high[2] == '\u{1680}' && high[3]
        == '\u{2000}' && high[4] == '\u{2001}' && high[5] == '\u{2002}' && high[6] == '\u{2003}'
        && high[7] == '\u{2004}' && high[8] == '\u{2005}' && high[9] == '\u{2006}' && high[10]
        == '\u{2007}' && high[11] == '\u{2008}' && high[12] == '\u{2009}' && high[13] == '\u{200a}'
        && high[14] == '\u{2028}' && high[15] == '\u{2029}' && high[16] == '\u{202f}' && high[17]
        == '\u{205f}' && high[18] == '\u{3000}');
}

/// Trimming takes the white space at both ends, all of it and nothing else.
pub proof fn law_trimmed(front: Seq<char>, core: Seq<char>, back: Seq<char>)
    requires
        forall|i: int| 0 <= i < front.len() ==> is_white(#[trigger] front[i]),
        forall|i: int| 0 <= i < back.len() ==> is_white(#[trigger] back[i]),
        core.len() > 0 ==> !is_white(core[0]) && !is_white(core.last()),
    ensures
        trim_back(trim_front(front + core + back)) == core,
    decreases front.len(), back.len(),
{
    let all = front + core + back;
    if front.len() > 0 {
        let rest = front.drop_first();
        assert forall|i: int| 0 <= i < rest.len() implies is_white(#[trigger] rest[i]) by {
            assert(rest[i] == front[i + 1]);
        }
        law_trimmed(rest, core, back);
        assert(all.drop_first() =~= rest + core + back);
        assert(all[0] == front[0]);
    } else if core.len() == 0 {
        if back.len() > 0 {
            let rest = back.drop_first();
            assert forall|i: int| 0 <= i < rest.len() implies is_white(#[trigger] rest[i]) by {
                assert(rest[i] == back[i + 1]);
            }
            law_trimmed(front, core, rest);
            assert(all.drop_first() =~= front + core + rest);
            assert(all[0] == back[0]);
        } else {
            assert(all =~= core);
        }
    } else {
        assert(all[0] == core[0]);
        if back.len() > 0 {
            let rest = back.drop_last();
            assert forall|i: int| 0 <= i < rest.len() implies is_white(#[trigger] rest[i]) by {
                assert(rest[i] == back[i]);
            }
            law_trimmed(front, core, rest);
            let shorter = front + core + rest;
            assert(shorter[0] == core[0]);
            assert(all.drop_last() =~= shorter);
            assert(all.last() == back.last());
        } else {
            assert(all =~= core);
        }
    }
}

/// Trimming a character at the back takes the whole run of it and nothing
/// else.
pub proof fn law_run_trimmed(core: Seq<char>, run: Seq<char>, c: char)
    requires
        forall|i: int| 0 <= i < run.len() ==> #[trigger] run[i] == c,
        core.len() > 0 ==> core.last() != c,
    ensures
        trim_back_char(core + run, c) == core,
    decreases run.len(),
{
    let all = core + run;
    if run.len() > 0 {
        let rest = run.drop_last();
        assert forall|i: int| 0 <= i < rest.len() implies #[trigger] rest[i] == c by {
            assert(rest[i] == run[i]);
        }
        law_run_trimmed(core, rest, c);
        assert(all.drop_last() =~= core + rest);
        assert(all.last() == run.last());
        assert(run.last() == run[run.len() - 1]);
    } else {
        assert(all =~= core);
    }
}

/// The digit at each place of a decimal spelling is the one that the number
/// has there; the digits are as many as it takes, with no zero in front.
pub proof fn law_decimal_places(n: nat, i: nat)
    requires
        i < decimal(n).len(),
    ensures
        decimal(n)[decimal(n).len() - 1 - i] as u32 - '0' as u32 == n as int / pow(10, i) % 10,
        n < pow(10, decimal(n).len()),
        decimal(n).len() > 1 ==> decimal(n)[0] != '0',
    decreases n,
{
    let text = decimal(n);
    reveal(pow);
    if n >= 10 {
        let rest = decimal(n / 10);
        lemma_decimal_digits(n / 10);
        assert(text.len() == rest.len() + 1);
        law_decimal_places(n / 10, 0);
        assert(pow(10, text.len()) == 10 * pow(10, rest.len()));
        assert(text[0] == rest[0]);
        if rest.len() == 1 {
            assert(n / 10 < 10) by {
                assert(pow(10, 1) == 10 * pow(10, 0));
            }
        }
        if i > 0 {
            let j = (i - 1) as nat;
            law_decimal_places(n / 10, j);
            assert(text[text.len() - 1 - i] == rest[rest.len() - 1 - j]);
            assert(pow(10, i) == 10 * pow(10, j));
            vstd::arithmetic::power::lemma_pow_positive(10, j);
            vstd::arithmetic::div_mod::lemma_div_denominator(n as int, 10, pow(10, j));
        } else {
            assert(pow(10, 0) == 1);
        }
    } else {
        assert(pow(10, 0) == 1);
        assert(pow(10, 1) == 10 * pow(10, 0));
    }
}

/// Every byte is spelled by two hexadecimal digits, the high half first.
pub proof fn law_hex_digits(bytes: Seq<u8>, i: int)
    requires
        0 <= i < bytes.len(),
    ensures
        hex(bytes).len() == 2 * bytes.len(),
        hex(bytes)[2 * i] == "0123456789abcdef"@[bytes[i] as int / 16],
        hex(bytes)[2 * i + 1] == "0123456789abcdef"@[bytes[i] as int % 16],
{
    law_hex_digit(bytes[i] as int / 16);
    law_hex_digit(bytes[i] as int % 16);
    assert((2 * i) / 2 == i && (2 * i) % 2 == 0 && (2 * i + 1) / 2 == i && (2 * i + 1) % 2 == 1);
}

/// The hexadecimal digits are those in use, in lower case.
pub proof fn law_hex_digit(d: int)
    requires
        0 <= d < 16,
    ensures
        hex_digit(d) == "0123456789abcdef"@[d],
{
    reveal_strlit("0123456789abcdef");
}

/// Texts are those of the strings, each at its place.
pub proof fn law_texts_are_own(parts: Seq<String>, i: int)
    ensures
        texts(parts).len() == parts.len(),
        0 <= i < parts.len() ==> texts(parts)[i] == parts[i]@,
{
}

} // verus!
