//! Punycode (RFC 3492): the ASCII spelling of a Unicode label, for use by
//! anything that has to hand a name to the classic DNS world.
//!
//! An encoded label is the label's ASCII characters, a `-` if there were
//! any, and a run of variable-length numbers. Each number is a *delta*: how
//! far a decoder has to step through the states `(code point, position)`,
//! position first, before it inserts the next character.

use vstd::prelude::*;
use vstd::utf8::is_scalar;
use crate::text::{chars_of, string_between, string_of};

verus! {

const BASE: u32 = 36;
const TMIN: u32 = 1;
const TMAX: u32 = 26;
const SKEW: u32 = 38;
const DAMP: u32 = 700;
const INITIAL_BIAS: u32 = 72;
const INITIAL_N: u32 = 128;
const DELIMITER: char = '-';

/// Why a label could not be encoded or decoded.
#[derive(Debug, Clone, Copy, PartialEq, Eq, Structural)]
pub enum PunycodeError {
    /// The text is not Punycode.
    InvalidInput,
    /// A number does not fit in 32 bits.
    Overflow,
}

/// `char::from_u32` gives the character with the given scalar value, and
/// nothing for a number that is no Unicode scalar value.
pub assume_specification[ char::from_u32 ](i: u32) -> (r: Option<char>)
    ensures
        r is Some <==> is_scalar(i),
        r matches Some(c) ==> c as u32 == i,
;

// ---------------------------------------------------------------------
// Bias and digits
// ---------------------------------------------------------------------

/// Scales `d` down until it is small, adding a base to `k` for each step.
pub open spec fn adapt_scaled(d: int, k: int) -> int
    decreases d,
{
    if d > 455 {
        adapt_scaled(d / 35, k + 36)
    } else {
        k + (36 * d) / (d + 38)
    }
}

/// The bias to use after a delta, with `points` characters placed.
pub open spec fn adapted(delta: int, points: int, first: bool) -> int {
    let d = if first {
        delta / 700
    } else {
        delta / 2
    };
    adapt_scaled(d + d / points, 0)
}

/// The digit threshold at position `k` of a number.
pub open spec fn threshold(k: int, bias: int) -> int {
    if k <= bias {
        1
    } else if k >= bias + 26 {
        26
    } else {
        k - bias
    }
}

/// The spelling of a digit value below 36: `a` to `z`, then `0` to `9`.
pub open spec fn digit_spelling(d: int) -> char {
    if d < 26 {
        (97 + d) as char
    } else {
        (48 + d - 26) as char
    }
}

/// The value of a digit in either case, if it is one.
pub open spec fn digit_value(c: char) -> Option<int> {
    if 'a' <= c <= 'z' {
        Some(c as u32 as int - 97)
    } else if 'A' <= c <= 'Z' {
        Some(c as u32 as int - 65)
    } else if '0' <= c <= '9' {
        Some(c as u32 as int - 48 + 26)
    } else {
        None
    }
}

pub proof fn lemma_quotient_shrinks(q: int, t: int)
    requires
        1 <= t <= 26,
        q >= t,
    ensures
        0 <= (q - t) / (36 - t) < q,
        0 <= (q - t) % (36 - t) < 36 - t,
        q == t + (q - t) % (36 - t) + ((q - t) / (36 - t)) * (36 - t),
{
    let a = q - t;
    let b = 36 - t;
    vstd::arithmetic::div_mod::lemma_fundamental_div_mod(a, b);
    vstd::arithmetic::div_mod::lemma_div_is_ordered_by_denominator(a, 1, b);
    vstd::arithmetic::div_mod::lemma_div_basics(a);
    vstd::arithmetic::div_mod::lemma_div_pos_is_pos(a, b);
    vstd::arithmetic::mul::lemma_mul_is_commutative(b, a / b);
}

/// The digits of `q` as a variable-length number, from position `k` on.
pub open spec fn digits(q: int, k: int, bias: int) -> Seq<char>
    decreases q,
{
    let t = threshold(k, bias);
    if q < t {
        seq![digit_spelling(q)]
    } else {
        proof {
            lemma_quotient_shrinks(q, t);
        }
        seq![digit_spelling(t + (q - t) % (36 - t))] + digits(
            (q - t) / (36 - t),
            k + 36,
            bias,
        )
    }
}

// ---------------------------------------------------------------------
// Decoding
// ---------------------------------------------------------------------

/// Reads the variable-length number at `pos`, at position `k` and weight
/// `w`, on top of `i`: the sum, and where the text goes on.
pub open spec fn read_number(
    text: Seq<char>,
    pos: int,
    k: int,
    bias: int,
    w: int,
    i: int,
) -> Result<(int, int), PunycodeError>
    decreases text.len() - pos,
{
    if pos < 0 || pos >= text.len() {
        Err(PunycodeError::InvalidInput)
    } else {
        match digit_value(text[pos]) {
            None => Err(PunycodeError::InvalidInput),
            Some(d) => {
                let t = threshold(k, bias);
                if d * w > u32::MAX || i + d * w > u32::MAX {
                    Err(PunycodeError::Overflow)
                } else if d < t {
                    Ok((i + d * w, pos + 1))
                } else if w * (36 - t) > u32::MAX {
                    Err(PunycodeError::Overflow)
                } else {
                    read_number(text, pos + 1, k + 36, bias, w * (36 - t), i + d * w)
                }
            },
        }
    }
}

pub proof fn lemma_read_number_advances(
    text: Seq<char>,
    pos: int,
    k: int,
    bias: int,
    w: int,
    i: int,
)
    ensures
        read_number(text, pos, k, bias, w, i) matches Ok((j, next)) ==> pos < next <= text.len()
            && j <= u32::MAX && (w >= 0 ==> j >= i),
    decreases text.len() - pos,
{
    if 0 <= pos < text.len() {
        if let Some(d) = digit_value(text[pos]) {
            let t = threshold(k, bias);
            assert(w >= 0 ==> d * w >= 0 && w * (36 - t) >= 0) by (nonlinear_arith)
                requires
                    d >= 0,
                    t <= 26,
            ;
            lemma_read_number_advances(text, pos + 1, k + 36, bias, w * (36 - t), i + d * w);
        }
    }
}

/// Inserts the characters that the numbers from `pos` on describe into
/// `out`, starting from the state `(n, i)`.
pub open spec fn insert_all(
    text: Seq<char>,
    pos: int,
    out: Seq<char>,
    n: int,
    i: int,
    bias: int,
) -> Result<Seq<char>, PunycodeError>
    decreases text.len() - pos,
{
    if pos >= text.len() {
        Ok(out)
    } else {
        match read_number(text, pos, 36, bias, 1, i) {
            Err(e) => Err(e),
            Ok((j, next)) => {
                proof {
                    lemma_read_number_advances(text, pos, 36, bias, 1, i);
                }
                let points = out.len() + 1;
                let m = n + j / points as int;
                if m > u32::MAX {
                    Err(PunycodeError::Overflow)
                } else if !is_scalar(m as u32) {
                    Err(PunycodeError::InvalidInput)
                } else {
                    insert_all(
                        text,
                        next,
                        out.insert(j % points as int, (m as u32) as char),
                        m,
                        j % points as int + 1,
                        adapted(j - i, points as int, i == 0),
                    )
                }
            },
        }
    }
}

/// The index of the last delimiter, or -1.
pub open spec fn last_delimiter(s: Seq<char>) -> int
    decreases s.len(),
{
    if s.len() == 0 {
        -1
    } else if s.last() == '-' {
        s.len() - 1
    } else {
        last_delimiter(s.drop_last())
    }
}

/// Whether every character is ASCII.
pub open spec fn all_ascii(s: Seq<char>) -> bool {
    forall|q: int| 0 <= q < s.len() ==> ((#[trigger] s[q]) as u32) < 128
}

/// What a bare Punycode text stands for.
pub open spec fn decoded(s: Seq<char>) -> Result<Seq<char>, PunycodeError> {
    let cut = last_delimiter(s);
    let basic = if cut < 0 {
        Seq::empty()
    } else {
        s.take(cut)
    };
    if all_ascii(basic) {
        insert_all(s.skip(cut + 1), 0, basic, 128, 0, 72)
    } else {
        Err(PunycodeError::InvalidInput)
    }
}

// ---------------------------------------------------------------------
// Encoding
// ---------------------------------------------------------------------

/// Whether the character at `q` is still to be placed once the decoder has
/// reached code point `n`, position `p` of the label.
pub open spec fn due(s: Seq<char>, n: int, p: int, q: int) -> bool {
    &&& 0 <= q < s.len()
    &&& s[q] as u32 > n || (s[q] as u32 == n && q >= p)
}

/// Whether `q` is the first due character: lowest code point, then leftmost.
pub open spec fn is_next(s: Seq<char>, n: int, p: int, q: int) -> bool {
    &&& due(s, n, p, q)
    &&& forall|r: int| #[trigger]
        due(s, n, p, r) ==> (s[q] as u32) < s[r] as u32 || (s[q] as u32 == s[r] as u32 && q <= r)
}

/// How many characters before `q` have a code point of at most `m`.
pub open spec fn rank(s: Seq<char>, m: int, q: int) -> int
    decreases q,
{
    if q <= 0 {
        0
    } else {
        rank(s, m, q - 1) + if s[q - 1] as u32 <= m {
            1int
        } else {
            0int
        }
    }
}

/// The first due character.
pub open spec fn next_due(s: Seq<char>, n: int, p: int) -> int {
    choose|q: int| is_next(s, n, p, q)
}

/// The delta that takes a decoder from `(n, i)`, with `h` characters placed,
/// to the insertion of the character at `q`.
pub open spec fn delta_to(s: Seq<char>, n: int, i: int, h: int, q: int) -> int {
    (s[q] as u32 - n) * (h + 1) + rank(s, s[q] as u32 as int, q) - i
}

/// The numbers for all characters still due, or `None` where a delta does
/// not fit in 32 bits. `b` is the number of ASCII characters.
pub open spec fn encoded_tail(
    s: Seq<char>,
    n: int,
    p: int,
    i: int,
    bias: int,
    h: int,
    b: int,
) -> Option<Seq<char>>
    decreases s.len() - h,
{
    if h >= s.len() {
        Some(Seq::empty())
    } else {
        let q = next_due(s, n, p);
        let delta = delta_to(s, n, i, h, q);
        if delta > u32::MAX {
            None
        } else {
            match encoded_tail(
                s,
                s[q] as u32 as int,
                q + 1,
                rank(s, s[q] as u32 as int, q) + 1,
                adapted(delta, h + 1, h == b),
                h + 1,
                b,
            ) {
                None => None,
                Some(rest) => Some(digits(delta, 36, bias) + rest),
            }
        }
    }
}

/// The ASCII characters of `s`, in order.
pub open spec fn basic_part(s: Seq<char>) -> Seq<char> {
    s.filter(|c: char| (c as u32) < 128)
}

/// The bare Punycode spelling of `s`, or `None` where a delta does not fit
/// in 32 bits.
pub open spec fn encoded(s: Seq<char>) -> Option<Seq<char>> {
    let basic = basic_part(s);
    let front = if basic.len() == 0 {
        basic
    } else {
        basic.push('-')
    };
    match encoded_tail(s, 128, 0, 0, 72, basic.len() as int, basic.len() as int) {
        None => None,
        Some(rest) => Some(front + rest),
    }
}

// ---------------------------------------------------------------------
// Executable bias and digits
// ---------------------------------------------------------------------

/// What scaling leaves of a 32-bit number by the time `k` has been reached.
spec fn scaled_bound(d: int, k: int) -> bool {
    ||| k == 0 && d <= u32::MAX
    ||| k == 36 && d <= 122713351
    ||| k == 72 && d <= 3506095
    ||| k == 108 && d <= 100174
    ||| k == 144 && d <= 2862
    ||| k == 180 && d <= 81
}

proof fn lemma_average_step(d: int, points: int)
    requires
        d >= 0,
        points >= 1,
    ensures
        0 <= d / points <= d,
{
    vstd::arithmetic::div_mod::lemma_div_is_ordered_by_denominator(d, 1, points);
    vstd::arithmetic::div_mod::lemma_div_basics(d);
    vstd::arithmetic::div_mod::lemma_div_pos_is_pos(d, points);
}

proof fn lemma_last_scale(d: int)
    requires
        0 <= d <= 455,
    ensures
        0 <= (36 * d) / (d + 38) <= 35,
{
    assert((36 * d) / (d + 38) <= 35) by (nonlinear_arith)
        requires
            0 <= d <= 455,
    ;
    assert(0 <= (36 * d) / (d + 38)) by (nonlinear_arith)
        requires
            0 <= d,
    ;
}

/// The bias stays small whatever the delta was.
proof fn lemma_adapt_scaled_bound(d: int, k: int)
    requires
        0 <= d,
        scaled_bound(d, k),
    ensures
        0 <= adapt_scaled(d, k) <= 215,
    decreases d,
{
    if d > 455 {
        lemma_adapt_scaled_bound(d / 35, k + 36);
    } else {
        lemma_last_scale(d);
    }
}

proof fn lemma_adapted_bound(delta: int, points: int, first: bool)
    requires
        0 <= delta <= u32::MAX,
        points >= 1,
    ensures
        0 <= adapted(delta, points, first) <= 215,
{
    let d = if first {
        delta / 700
    } else {
        delta / 2
    };
    lemma_average_step(d, points);
    lemma_adapt_scaled_bound(d + d / points, 0);
}

/// The bias for the number after this one.
fn adapt(delta: u32, num_points: u32, first_time: bool) -> (r: u32)
    requires
        num_points >= 1,
    ensures
        r == adapted(delta as int, num_points as int, first_time),
        r <= 215,
{
    let halved: u32 = if first_time {
        delta / DAMP
    } else {
        delta / 2
    };
    proof {
        lemma_average_step(halved as int, num_points as int);
        lemma_adapted_bound(delta as int, num_points as int, first_time);
    }
    let mut d: u32 = halved + halved / num_points;
    let mut k: u32 = 0;
    while d > ((BASE - TMIN) * TMAX) / 2
        invariant
            scaled_bound(d as int, k as int),
            adapt_scaled(d as int, k as int) == adapted(
                delta as int,
                num_points as int,
                first_time,
            ),
        decreases d,
    {
        d = d / (BASE - TMIN);
        k = k + BASE;
    }
    proof {
        lemma_last_scale(d as int);
    }
    k + ((BASE - TMIN + 1) * d) / (d + SKEW)
}

/// The digit threshold at position `k`.
fn threshold_at(k: u64, bias: u32) -> (r: u32)
    requires
        bias <= 215,
    ensures
        r == threshold(k as int, bias as int),
        1 <= r <= 26,
{
    if k <= bias as u64 {
        TMIN
    } else if k >= (bias + TMAX) as u64 {
        TMAX
    } else {
        k as u32 - bias
    }
}

/// Spells a digit value.
fn digit_to_char(digit: u32) -> (r: char)
    requires
        digit < 36,
    ensures
        r == digit_spelling(digit as int),
{
    if digit < 26 {
        (97u8 + digit as u8) as char
    } else {
        (48u8 + (digit - 26) as u8) as char
    }
}

/// Reads a digit in either case.
fn char_to_digit(c: char) -> (r: Option<u32>)
    ensures
        match r {
            Some(d) => digit_value(c) == Some(d as int) && d < 36,
            None => digit_value(c) is None,
        },
{
    if 'a' <= c && c <= 'z' {
        Some(c as u32 - 97)
    } else if 'A' <= c && c <= 'Z' {
        Some(c as u32 - 65)
    } else if '0' <= c && c <= '9' {
        Some(c as u32 - 48 + 26)
    } else {
        None
    }
}

/// Appends the digits of `delta` to `out`.
fn push_digits(out: &mut Vec<char>, delta: u32, bias: u32)
    requires
        bias <= 215,
    ensures
        final(out)@ == old(out)@ + digits(delta as int, 36, bias as int),
{
    let mut q: u32 = delta;
    let mut k: u64 = 36;
    let mut t: u32 = threshold_at(k, bias);
    while q >= t
        invariant
            bias <= 215,
            1 <= t <= 26,
            t == threshold(k as int, bias as int),
            k <= 36 * (delta - q + 1),
            q <= delta,
            out@ + digits(q as int, k as int, bias as int) == old(out)@ + digits(
                delta as int,
                36,
                bias as int,
            ),
        decreases q,
    {
        let ghost before = out@;
        let ghost rest = digits((q - t) as int / (36 - t) as int, k + 36, bias as int);
        proof {
            lemma_quotient_shrinks(q as int, t as int);
        }
        let c = digit_to_char(t + (q - t) % (BASE - t));
        out.push(c);
        assert(digits(q as int, k as int, bias as int) == seq![c] + rest);
        assert(before + (seq![c] + rest) =~= out@ + rest);
        q = (q - t) / (BASE - t);
        k = k + 36;
        t = threshold_at(k, bias);
    }
    out.push(digit_to_char(q));
    assert(out@ =~= old(out)@ + digits(delta as int, 36, bias as int));
}

// ---------------------------------------------------------------------
// Executable decoding
// ---------------------------------------------------------------------

/// Reads the number at `start` on top of `old_i`.
fn read_delta(text: &Vec<char>, start: usize, bias: u32, old_i: u32) -> (r: Result<
    (u32, usize),
    PunycodeError,
>)
    requires
        start <= text@.len() < u32::MAX,
        bias <= 215,
    ensures
        match r {
            Ok((i, next)) => read_number(text@, start as int, 36, bias as int, 1, old_i as int)
                == Ok::<(int, int), PunycodeError>((i as int, next as int)),
            Err(e) => read_number(text@, start as int, 36, bias as int, 1, old_i as int) == Err::<
                (int, int),
                PunycodeError,
            >(e),
        },
{
    let mut pos: usize = start;
    let mut i: u32 = old_i;
    let mut w: u32 = 1;
    let mut k: u64 = 36;
    loop
        invariant
            start <= pos <= text@.len() < u32::MAX,
            bias <= 215,
            k <= 36 * (pos - start + 1),
            read_number(text@, pos as int, k as int, bias as int, w as int, i as int)
                == read_number(text@, start as int, 36, bias as int, 1, old_i as int),
        decreases text@.len() - pos,
    {
        if pos >= text.len() {
            return Err(PunycodeError::InvalidInput);
        }
        let digit: u32 = match char_to_digit(text[pos]) {
            Some(digit) => digit,
            None => {
                return Err(PunycodeError::InvalidInput);
            },
        };
        let step: u32 = match digit.checked_mul(w) {
            Some(step) => step,
            None => {
                return Err(PunycodeError::Overflow);
            },
        };
        i = match i.checked_add(step) {
            Some(sum) => sum,
            None => {
                return Err(PunycodeError::Overflow);
            },
        };
        let t: u32 = threshold_at(k, bias);
        if digit < t {
            return Ok((i, pos + 1));
        }
        w = match w.checked_mul(BASE - t) {
            Some(weight) => weight,
            None => {
                return Err(PunycodeError::Overflow);
            },
        };
        k = k + 36;
        pos = pos + 1;
    }
}

/// Decode a bare Punycode text (without the `xn--` prefix) into the Unicode
/// text it stands for.
pub fn decode(input: &str) -> (r: Result<String, PunycodeError>)
    requires
        input@.len() < u32::MAX,
    ensures
        match r {
            Ok(text) => decoded(input@) == Ok::<Seq<char>, PunycodeError>(text@),
            Err(e) => decoded(input@) == Err::<Seq<char>, PunycodeError>(e),
        },
{
    let all = chars_of(input);
    let mut start: usize = all.len();
    assert(all@.take(start as int) =~= all@);
    while start > 0 && all[start - 1] != DELIMITER
        invariant
            start <= all@.len(),
            last_delimiter(all@) == last_delimiter(all@.take(start as int)),
        decreases start,
    {
        assert(all@.take(start as int).drop_last() =~= all@.take(start - 1));
        start = start - 1;
    }
    let ghost cut = last_delimiter(all@);
    assert(cut == start - 1);
    let ghost basic = if cut < 0 {
        Seq::<char>::empty()
    } else {
        all@.take(cut)
    };

    let mut output: Vec<char> = Vec::new();
    let mut b: usize = 0;
    while b + 1 < start
        invariant
            b <= start <= all@.len(),
            all@ == input@,
            cut == last_delimiter(input@) == start - 1,
            b + 1 <= start || b == 0,
            output@ == all@.take(b as int),
            basic == if cut < 0 {
                Seq::<char>::empty()
            } else {
                all@.take(cut)
            },
            all_ascii(output@),
        decreases start - b,
    {
        let c = all[b];
        if c as u32 >= 128 {
            assert(basic[b as int] == c);
            return Err(PunycodeError::InvalidInput);
        }
        output.push(c);
        assert(output@ =~= all@.take(b + 1));
        b = b + 1;
    }
    assert(output@ =~= basic);

    let mut text: Vec<char> = Vec::new();
    let mut e: usize = start;
    while e < all.len()
        invariant
            start <= e <= all@.len(),
            text@ == all@.subrange(start as int, e as int),
        decreases all@.len() - e,
    {
        text.push(all[e]);
        e = e + 1;
    }
    assert(text@ =~= all@.skip(cut + 1));

    let mut n: u32 = INITIAL_N;
    let mut i: u32 = 0;
    let mut bias: u32 = INITIAL_BIAS;
    let mut pos: usize = 0;
    while pos < text.len()
        invariant
            pos <= text@.len() < u32::MAX,
            output@.len() + (text@.len() - pos) < u32::MAX,
            bias <= 215,
            decoded(input@) == insert_all(
                text@,
                pos as int,
                output@,
                n as int,
                i as int,
                bias as int,
            ),
        decreases text@.len() - pos,
    {
        let old_i: u32 = i;
        let ghost old_n = n;
        let ghost old_bias = bias;
        let ghost old_output = output@;
        proof {
            lemma_read_number_advances(text@, pos as int, 36, bias as int, 1, i as int);
        }
        let (sum, next): (u32, usize) = match read_delta(&text, pos, bias, old_i) {
            Ok(pair) => pair,
            Err(err) => {
                return Err(err);
            },
        };
        let num_points: u32 = output.len() as u32 + 1;
        bias = adapt(sum - old_i, num_points, old_i == 0);
        n = match n.checked_add(sum / num_points) {
            Some(m) => m,
            None => {
                return Err(PunycodeError::Overflow);
            },
        };
        i = sum % num_points;
        let c = match char::from_u32(n) {
            Some(c) => c,
            None => {
                return Err(PunycodeError::InvalidInput);
            },
        };
        proof {
            vstd::utf8::char_u32_cast(c, n);
        }
        output.insert(i as usize, c);
        i = i + 1;
        assert(insert_all(
            text@,
            pos as int,
            old_output,
            old_n as int,
            old_i as int,
            old_bias as int,
        ) == insert_all(text@, next as int, output@, n as int, i as int, bias as int));
        pos = next;
    }
    Ok(string_of(output.as_slice()))
}

// ---------------------------------------------------------------------
// What is placed and what is due
// ---------------------------------------------------------------------

/// The characters before `e` that are not due any more, in label order:
/// what a decoder has at `(n, p)`.
pub open spec fn placed(s: Seq<char>, n: int, p: int, e: int) -> Seq<char>
    decreases e,
{
    if e <= 0 {
        Seq::empty()
    } else if due(s, n, p, e - 1) {
        placed(s, n, p, e - 1)
    } else {
        placed(s, n, p, e - 1).push(s[e - 1])
    }
}

proof fn lemma_placed_len(s: Seq<char>, n: int, p: int, e: int)
    requires
        0 <= e <= s.len(),
    ensures
        placed(s, n, p, e).len() <= e,
        placed(s, n, p, e).len() == e <==> (forall|q: int| 0 <= q < e ==> !due(s, n, p, q)),
    decreases e,
{
    if e > 0 {
        lemma_placed_len(s, n, p, e - 1);
    }
}

proof fn lemma_all_placed(s: Seq<char>, n: int, p: int, e: int)
    requires
        0 <= e <= s.len(),
        placed(s, n, p, e).len() == e,
    ensures
        placed(s, n, p, e) == s.take(e),
    decreases e,
{
    if e > 0 {
        lemma_placed_len(s, n, p, e);
        lemma_placed_len(s, n, p, e - 1);
        lemma_all_placed(s, n, p, e - 1);
        assert(s.take(e) =~= s.take(e - 1).push(s[e - 1]));
    } else {
        assert(s.take(e) =~= Seq::empty());
    }
}

proof fn lemma_placed_basic(s: Seq<char>, e: int)
    requires
        0 <= e <= s.len(),
    ensures
        placed(s, 128, 0, e) == basic_part(s.take(e)),
    decreases e,
{
    reveal(Seq::filter);
    if e > 0 {
        lemma_placed_basic(s, e - 1);
        assert(s.take(e).drop_last() =~= s.take(e - 1));
    } else {
        assert(s.take(e) =~= Seq::empty());
    }
}

/// Equal due sets give the same placed characters.
proof fn lemma_placed_same(s: Seq<char>, n: int, p: int, n2: int, p2: int, e: int)
    requires
        forall|q: int| due(s, n, p, q) <==> due(s, n2, p2, q),
    ensures
        placed(s, n, p, e) == placed(s, n2, p2, e),
    decreases e,
{
    if e > 0 {
        lemma_placed_same(s, n, p, n2, p2, e - 1);
    }
}

proof fn lemma_rank_monotone(s: Seq<char>, m: int, p: int, q: int)
    requires
        0 <= p <= q,
    ensures
        0 <= rank(s, m, p) <= rank(s, m, q) <= rank(s, m, p) + (q - p),
        rank(s, m, p) <= p,
    decreases q,
{
    if p < q {
        lemma_rank_monotone(s, m, p, q - 1);
    } else if q > 0 {
        lemma_rank_monotone(s, m, p - 1, q - 1);
    }
}

/// Up to the position reached, the rank counts what is placed.
proof fn lemma_rank_counts_placed(s: Seq<char>, m: int, p: int, e: int)
    requires
        0 <= e <= s.len(),
        e <= p,
    ensures
        placed(s, m, p, e).len() == rank(s, m, e),
    decreases e,
{
    if e > 0 {
        lemma_rank_counts_placed(s, m, p, e - 1);
    }
}

/// Among the first `e` characters, one due character comes before all others.
proof fn lemma_first_due_below(s: Seq<char>, n: int, p: int, e: int) -> (q: int)
    requires
        0 <= e <= s.len(),
        exists|r: int| r < e && due(s, n, p, r),
    ensures
        due(s, n, p, q),
        q < e,
        forall|r: int| #[trigger]
            due(s, n, p, r) && r < e ==> (s[q] as u32) < s[r] as u32 || (s[q] as u32 == s[r] as u32 && q <= r),
    decreases e,
{
    if exists|r: int| r < e - 1 && due(s, n, p, r) {
        let q = lemma_first_due_below(s, n, p, e - 1);
        if due(s, n, p, e - 1) && (s[e - 1] as u32) < s[q] as u32 {
            e - 1
        } else {
            q
        }
    } else {
        e - 1
    }
}

/// While something is due, `next_due` is the first of it.
proof fn lemma_next_due(s: Seq<char>, n: int, p: int)
    requires
        exists|r: int| due(s, n, p, r),
    ensures
        is_next(s, n, p, next_due(s, n, p)),
{
    let q = lemma_first_due_below(s, n, p, s.len() as int);
    assert(is_next(s, n, p, q));
}

proof fn lemma_next_unique(s: Seq<char>, n: int, p: int, q: int)
    requires
        is_next(s, n, p, q),
    ensures
        next_due(s, n, p) == q,
{
    lemma_next_due(s, n, p);
    let r = next_due(s, n, p);
    assert(due(s, n, p, r));
}

/// Placing the next due character inserts it behind everything that its
/// rank counts.
proof fn lemma_place_next(s: Seq<char>, n: int, p: int, q: int, e: int)
    requires
        is_next(s, n, p, q),
        0 <= e <= s.len(),
    ensures
        ({
            let m = s[q] as u32 as int;
            let before = placed(s, n, p, e);
            let after = placed(s, m, q + 1, e);
            &&& e <= q ==> before.len() == rank(s, m, e) && after == before
            &&& e > q ==> rank(s, m, q) <= before.len() && after == before.insert(
                rank(s, m, q),
                s[q],
            )
        }),
    decreases e,
{
    let m = s[q] as u32 as int;
    lemma_rank_monotone(s, m, 0, q);
    if e > 0 {
        lemma_place_next(s, n, p, q, e - 1);
        let r = e - 1;
        if r < q {
            assert(due(s, n, p, r) <==> s[r] as u32 > m);
            assert(due(s, m, q + 1, r) <==> s[r] as u32 > m);
        } else if r == q {
            let before = placed(s, n, p, r);
            assert(!due(s, m, q + 1, q));
            assert(before.insert(rank(s, m, q), s[q]) =~= before.push(s[q]));
        } else {
            assert(due(s, n, p, r) <==> due(s, m, q + 1, r));
            let before = placed(s, n, p, r);
            assert(before.insert(rank(s, m, q), s[q]).push(s[r]) =~= before.push(s[r]).insert(
                rank(s, m, q),
                s[q],
            ));
        }
    }
}

// ---------------------------------------------------------------------
// Executable encoding
// ---------------------------------------------------------------------

/// The delta gathered while the scan stands at `(n, p)` and the last
/// character was placed from the state `(from, i)`, with `h` placed.
spec fn gathered(s: Seq<char>, n: int, p: int, from: int, i: int, h: int) -> int {
    (n - from) * (h + 1) - i + rank(s, n, p)
}

proof fn lemma_gathered_moves(s: Seq<char>, n: int, m: int, from: int, i: int, h: int)
    ensures
        gathered(s, m, 0, from, i, h) == gathered(s, n, 0, from, i, h) + (m - n) * (h + 1),
{
    assert((m - from) * (h + 1) == (n - from) * (h + 1) + (m - n) * (h + 1)) by (nonlinear_arith);
}

proof fn lemma_gathered_at_home(s: Seq<char>, n: int, p: int, i: int, h: int)
    ensures
        gathered(s, n, p, n, i, h) == rank(s, n, p) - i,
{
    assert((n - n) * (h + 1) == 0) by (nonlinear_arith);
}

/// The lowest code point of at least `n`.
fn lowest_from(chars: &Vec<char>, n: u32) -> (r: Option<u32>)
    ensures
        match r {
            Some(m) => {
                &&& n <= m <= 0x10ffff
                &&& exists|q: int| 0 <= q < chars@.len() && (#[trigger] chars@[q]) as u32 == m
                &&& forall|q: int|
                    0 <= q < chars@.len() && (#[trigger] chars@[q]) as u32 >= n
                        ==> chars@[q] as u32 >= m
            },
            None => forall|q: int| 0 <= q < chars@.len() ==> ((#[trigger] chars@[q]) as u32) < n,
        },
{
    let mut best: Option<u32> = None;
    let mut j: usize = 0;
    while j < chars.len()
        invariant
            j <= chars@.len(),
            match best {
                Some(m) => {
                    &&& n <= m <= 0x10ffff
                    &&& exists|q: int| 0 <= q < j && (#[trigger] chars@[q]) as u32 == m
                    &&& forall|q: int|
                        0 <= q < j && (#[trigger] chars@[q]) as u32 >= n ==> chars@[q] as u32 >= m
                },
                None => forall|q: int| 0 <= q < j ==> ((#[trigger] chars@[q]) as u32) < n,
            },
        decreases chars.len() - j,
    {
        let symbol = chars[j];
        let c: u32 = symbol as u32;
        proof {
            vstd::utf8::char_is_scalar(symbol);
        }
        assert(chars@[j as int] as u32 == c);
        let ghost before = best;
        if c >= n {
            best = match best {
                Some(m) => if c < m {
                    Some(c)
                } else {
                    Some(m)
                },
                None => Some(c),
            };
        }
        proof {
            if let Some(m) = best {
                assert(n <= m <= 0x10ffff);
                if before == best {
                    let q = choose|q: int| 0 <= q < j && (#[trigger] chars@[q]) as u32 == m;
                    assert(chars@[q] as u32 == m);
                }
            }
        }
        j = j + 1;
    }
    best
}

/// Encode the Unicode text of one label as bare Punycode (without the
/// `xn--` prefix).
#[verifier::rlimit(60)]
pub fn encode(input: &str) -> (r: Result<String, PunycodeError>)
    requires
        input@.len() < u32::MAX,
    ensures
        match r {
            Ok(text) => encoded(input@) == Some(text@),
            Err(e) => encoded(input@) is None && e == PunycodeError::Overflow,
        },
{
    let chars = chars_of(input);
    let ghost s = chars@;
    let len: usize = chars.len();
    let mut output: Vec<char> = Vec::new();
    let mut j: usize = 0;
    assert(s.take(0) =~= Seq::empty());
    while j < len
        invariant
            s == chars@,
            j <= len == s.len(),
            output@ == placed(s, 128, 0, j as int),
        decreases len - j,
    {
        let c = chars[j];
        if (c as u32) < 128 {
            output.push(c);
        }
        j = j + 1;
    }
    proof {
        lemma_placed_basic(s, s.len() as int);
        lemma_placed_len(s, 128, 0, s.len() as int);
        assert(s.take(s.len() as int) =~= s);
    }
    let ghost basic = basic_part(s);
    let basic_len: u32 = output.len() as u32;
    let total: u32 = len as u32;
    if output.len() > 0 {
        output.push(DELIMITER);
    }
    let ghost front = output@;
    let ghost whole = encoded_tail(s, 128, 0, 0, 72, basic.len() as int, basic.len() as int);

    let mut handled: u32 = basic_len;
    let mut n: u32 = INITIAL_N;
    let mut delta: u32 = 0;
    let mut bias: u32 = INITIAL_BIAS;
    // The state in which a decoder is left by the characters handled.
    let ghost mut from: int = 128;
    let ghost mut at: int = 0;
    let ghost mut i: int = 0;
    let ghost mut extra: Seq<char> = Seq::empty();
    proof {
        lemma_gathered_at_home(s, 128, 0, 0, handled as int);
        if let Some(rest) = whole {
            assert(extra + rest =~= rest);
        }
    }

    while handled < total
        invariant
            s == chars@,
            s == input@,
            len == s.len() == total,
            len < u32::MAX,
            basic_len == basic.len(),
            handled <= total,
            bias <= 215,
            n <= 0x110000,
            handled == placed(s, from, at, s.len() as int).len(),
            forall|q: int| due(s, from, at, q) <==> due(s, n as int, 0, q),
            delta == gathered(s, n as int, 0, from, i, handled as int),
            from <= n,
            output@ == front + extra,
            whole == encoded_tail(
                s,
                128,
                0,
                0,
                72,
                basic.len() as int,
                basic.len() as int,
            ),
            match encoded_tail(s, from, at, i, bias as int, handled as int, basic_len as int) {
                None => whole is None,
                Some(rest) => whole == Some(extra + rest),
            },
            encoded(s) == match whole {
                None => None::<Seq<char>>,
                Some(rest) => Some(front + rest),
            },
        decreases total - handled,
    {
        proof {
            lemma_placed_len(s, from, at, s.len() as int);
        }
        let min_code_point: u32 = match lowest_from(&chars, n) {
            Some(m) => m,
            None => {
                assert(forall|q: int| !due(s, n as int, 0, q));
                assert(false);
                return Err(PunycodeError::Overflow);
            },
        };
        let ghost first = choose|q: int|
            0 <= q < chars@.len() && (#[trigger] chars@[q]) as u32 == min_code_point;
        proof {
            assert(due(s, n as int, 0, first));
            assert forall|q: int| due(s, from, at, q) <==> due(
                s,
                min_code_point as int,
                0,
                q,
            ) by {
                if 0 <= q < s.len() {
                    assert(chars@[q] as u32 >= n ==> chars@[q] as u32 >= min_code_point);
                }
            }
            lemma_gathered_moves(s, n as int, min_code_point as int, from, i, handled as int);
            lemma_overflow_ahead(
                s,
                from,
                at,
                i,
                bias as int,
                handled as int,
                basic_len as int,
                min_code_point as int,
                0,
                first,
            );
        }
        let step: u32 = match (min_code_point - n).checked_mul(handled + 1) {
            Some(step) => step,
            None => {
                return Err(PunycodeError::Overflow);
            },
        };
        delta = match delta.checked_add(step) {
            Some(sum) => sum,
            None => {
                return Err(PunycodeError::Overflow);
            },
        };
        n = min_code_point;

        let ghost handled_before = handled;
        let ghost mut found = false;
        let mut p: usize = 0;
        while p < len
            invariant
                s == chars@,
                s == input@,
                len == s.len() == total,
                len < u32::MAX,
                p <= len,
                basic_len == basic.len(),
                handled <= total,
                bias <= 215,
                n <= 0x10ffff,
                handled == placed(s, from, at, s.len() as int).len(),
                forall|q: int| due(s, from, at, q) <==> due(s, n as int, p as int, q),
                delta == gathered(s, n as int, p as int, from, i, handled as int),
                from <= n,
                found ==> from == n && handled > handled_before && i >= 0,
                !found ==> p <= first < s.len() && s[first] as u32 == n && handled
                    == handled_before,
                output@ == front + extra,
                match encoded_tail(
                    s,
                    from,
                    at,
                    i,
                    bias as int,
                    handled as int,
                    basic_len as int,
                ) {
                    None => whole is None,
                    Some(rest) => whole == Some(extra + rest),
                },
                encoded(s) == match whole {
                    None => None::<Seq<char>>,
                    Some(rest) => Some(front + rest),
                },
            decreases len - p,
        {
            let cp: u32 = chars[p] as u32;
            assert(s[p as int] as u32 == cp);
            let ghost rank_here = rank(s, n as int, p as int);
            assert(rank(s, n as int, p + 1) == rank_here + if cp <= n {
                1int
            } else {
                0int
            });
            proof {
                lemma_rank_monotone(s, n as int, 0, p as int);
            }
            if cp < n {
                proof {
                    if found {
                        lemma_gathered_at_home(s, n as int, p as int, i, handled as int);
                    } else {
                        assert(due(s, n as int, p as int, first));
                        lemma_placed_len(s, from, at, s.len() as int);
                        lemma_overflow_ahead(
                            s,
                            from,
                            at,
                            i,
                            bias as int,
                            handled as int,
                            basic_len as int,
                            n as int,
                            p + 1,
                            first,
                        );
                    }
                }
                delta = match delta.checked_add(1) {
                    Some(sum) => sum,
                    None => {
                        return Err(PunycodeError::Overflow);
                    },
                };
                assert forall|q: int| due(s, n as int, p as int, q) <==> due(
                    s,
                    n as int,
                    p + 1,
                    q,
                ) by {}
            } else if cp == n {
                proof {
                    lemma_placed_len(s, from, at, s.len() as int);
                    assert(due(s, n as int, p as int, p as int));
                    assert(due(s, from, at, p as int));
                    assert forall|r: int| #[trigger] due(s, from, at, r) implies (s[p as int]
                        as u32) < s[r] as u32 || (s[p as int] as u32 == s[r] as u32 && p <= r) by {
                        assert(due(s, n as int, p as int, r));
                    }
                    assert(is_next(s, from, at, p as int));
                    lemma_next_unique(s, from, at, p as int);
                    lemma_place_next(s, from, at, p as int, s.len() as int);
                    lemma_placed_len(s, n as int, p + 1, s.len() as int);
                }
                let ghost tail_before = encoded_tail(
                    s,
                    from,
                    at,
                    i,
                    bias as int,
                    handled as int,
                    basic_len as int,
                );
                assert(delta == delta_to(s, from, i, handled as int, p as int));
                push_digits(&mut output, delta, bias);
                let ghost number = digits(delta as int, 36, bias as int);
                bias = adapt(delta, handled + 1, handled == basic_len);
                proof {
                    let tail_after = encoded_tail(
                        s,
                        n as int,
                        p + 1,
                        rank_here + 1,
                        bias as int,
                        handled + 1,
                        basic_len as int,
                    );
                    if let Some(rest) = tail_after {
                        assert(tail_before == Some(number + rest));
                        assert(extra + (number + rest) =~= (extra + number) + rest);
                    }
                    assert(front + (extra + number) =~= (front + extra) + number);
                    extra = extra + number;
                    from = n as int;
                    at = p + 1;
                    i = rank_here + 1;
                    found = true;
                    lemma_gathered_at_home(s, n as int, p + 1, i, handled + 1);
                }
                delta = 0;
                handled = handled + 1;
            } else {
                assert forall|q: int| due(s, n as int, p as int, q) <==> due(
                    s,
                    n as int,
                    p + 1,
                    q,
                ) by {}
            }
            p = p + 1;
        }
        proof {
            lemma_gathered_at_home(s, n as int, len as int, i, handled as int);
            lemma_rank_monotone(s, n as int, 0, len as int);
            lemma_placed_same(s, from, at, n as int, len as int, s.len() as int);
            lemma_rank_counts_placed(s, n as int, len as int, s.len() as int);
            lemma_gathered_moves(s, n as int, n + 1, from, i, handled as int);
            lemma_gathered_at_home(s, n as int, 0, i, handled as int);
            assert((n + 1 - n) * (handled + 1) == handled + 1) by (nonlinear_arith);
            assert forall|q: int| due(s, from, at, q) <==> due(s, n + 1, 0, q) by {}
        }
        delta = delta + 1;
        n = n + 1;
    }
    proof {
        assert(encoded_tail(s, from, at, i, bias as int, handled as int, basic_len as int) == Some(
            Seq::<char>::empty(),
        ));
        assert(extra + Seq::<char>::empty() =~= extra);
    }
    Ok(string_of(output.as_slice()))
}

/// A delta that already has overflowed on the way to the next character
/// makes the encoding fail.
proof fn lemma_overflow_ahead(
    s: Seq<char>,
    from: int,
    at: int,
    i: int,
    bias: int,
    h: int,
    b: int,
    n: int,
    p: int,
    first: int,
)
    requires
        0 <= p <= first < s.len(),
        s[first] as u32 == n,
        h < s.len(),
        due(s, from, at, first),
        forall|q: int| #[trigger]
            due(s, from, at, q) ==> s[q] as u32 > n || (s[q] as u32 == n && q >= p),
    ensures
        gathered(s, n, p, from, i, h) > u32::MAX ==> encoded_tail(s, from, at, i, bias, h, b)
            is None,
{
    lemma_next_due(s, from, at);
    let q = next_due(s, from, at);
    assert(due(s, from, at, q));
    assert(s[q] as u32 == n);
    lemma_rank_monotone(s, n, p, q);
}

// ---------------------------------------------------------------------
// Decoding gives back what was encoded
// ---------------------------------------------------------------------

/// Whether a decoder's counter, which holds `i + delta`, stays within 32
/// bits for every character still due.
pub open spec fn counter_fits(s: Seq<char>, n: int, p: int, h: int) -> bool
    decreases s.len() - h,
{
    h >= s.len() || {
        let q = next_due(s, n, p);
        let m = s[q] as u32 as int;
        &&& (m - n) * (h + 1) + rank(s, m, q) <= u32::MAX
        &&& counter_fits(s, m, q + 1, h + 1)
    }
}

/// The largest weight that a digit at position `k` can have. From the
/// seventh digit on nothing is said.
spec fn weight_bound(k: int, w: int) -> bool {
    ||| k == 36 && w <= 1
    ||| k == 72 && w <= 35
    ||| k == 108 && w <= 1225
    ||| k == 144 && w <= 42875
    ||| k == 180 && w <= 1500625
    ||| k == 216 && w <= 52521875
    ||| k >= 252
}

proof fn lemma_weight_grows(k: int, w: int, bias: int, q: int)
    requires
        weight_bound(k, w),
        w >= 1,
        0 <= bias <= 215,
        q >= threshold(k, bias),
        q * w <= u32::MAX,
    ensures
        1 <= w * (36 - threshold(k, bias)) <= u32::MAX,
        weight_bound(k + 36, w * (36 - threshold(k, bias))),
{
    let t = threshold(k, bias);
    assert(w <= w * (36 - t) <= 35 * w) by (nonlinear_arith)
        requires
            w >= 1,
            1 <= t <= 26,
    ;
    if k >= 252 {
        assert(t == 26);
        assert(26 * w <= q * w) by (nonlinear_arith)
            requires
                q >= 26,
                w >= 1,
        ;
        assert(w * (36 - t) == 10 * w) by (nonlinear_arith)
            requires
                t == 26,
        ;
    }
}

proof fn lemma_digit_reads(d: int)
    requires
        0 <= d < 36,
    ensures
        digit_value(digit_spelling(d)) == Some(d),
        digit_spelling(d) != '-',
{
}

/// A number reads back as what was written.
proof fn lemma_read_digits(
    text: Seq<char>,
    pos: int,
    q: int,
    k: int,
    bias: int,
    w: int,
    i: int,
)
    requires
        0 <= pos,
        pos + digits(q, k, bias).len() <= text.len(),
        text.subrange(pos, pos + digits(q, k, bias).len()) == digits(q, k, bias),
        0 <= bias <= 215,
        0 <= q,
        0 <= i,
        1 <= w,
        i + q * w <= u32::MAX,
        weight_bound(k, w),
    ensures
        read_number(text, pos, k, bias, w, i) == Ok::<_, PunycodeError>(
            (i + q * w, pos + digits(q, k, bias).len()),
        ),
    decreases q,
{
    let all = digits(q, k, bias);
    let t = threshold(k, bias);
    assert(all.len() > 0);
    assert(text[pos] == all[0]) by {
        assert(text.subrange(pos, pos + all.len())[0] == text[pos]);
    }
    if q < t {
        lemma_digit_reads(q);
    } else {
        lemma_quotient_shrinks(q, t);
        let r = (q - t) % (36 - t);
        let rest = (q - t) / (36 - t);
        let d = t + r;
        lemma_digit_reads(d);
        assert(0 <= d * w) by (nonlinear_arith)
            requires
                d >= 0,
                w >= 1,
        ;
        assert(0 <= rest * (w * (36 - t))) by (nonlinear_arith)
            requires
                rest >= 0,
                w >= 1,
                t <= 26,
        ;
        assert(q * w == d * w + rest * (w * (36 - t))) by (nonlinear_arith)
            requires
                q == d + rest * (36 - t),
        ;
        lemma_weight_grows(k, w, bias, q);
        let tail = digits(rest, k + 36, bias);
        assert(text.subrange(pos + 1, pos + 1 + tail.len()) =~= tail) by {
            assert forall|j: int| 0 <= j < tail.len() implies text[pos + 1 + j] == tail[j] by {
                assert(text.subrange(pos, pos + all.len())[j + 1] == all[j + 1]);
            }
        }
        lemma_read_digits(text, pos + 1, rest, k + 36, bias, w * (36 - t), i + d * w);
    }
}

proof fn lemma_digits_plain(q: int, k: int, bias: int)
    requires
        0 <= q,
    ensures
        digits(q, k, bias).len() > 0,
        forall|j: int| 0 <= j < digits(q, k, bias).len() ==> digits(q, k, bias)[j] != '-',
    decreases q,
{
    let t = threshold(k, bias);
    if q < t {
        lemma_digit_reads(q);
    } else {
        lemma_quotient_shrinks(q, t);
        lemma_digit_reads(t + (q - t) % (36 - t));
        lemma_digits_plain((q - t) / (36 - t), k + 36, bias);
    }
}

/// The delta to the next due character is a number, and takes the decoder
/// there.
proof fn lemma_delta_lands(s: Seq<char>, n: int, p: int, h: int)
    requires
        h == placed(s, n, p, s.len() as int).len(),
        h < s.len(),
        0 <= p <= s.len(),
    ensures
        ({
            let q = next_due(s, n, p);
            let m = s[q] as u32 as int;
            let i = rank(s, n, p);
            let j = (m - n) * (h + 1) + rank(s, m, q);
            &&& is_next(s, n, p, q)
            &&& delta_to(s, n, i, h, q) == j - i
            &&& j >= i >= 0
            &&& j / (h + 1) == m - n
            &&& j % (h + 1) == rank(s, m, q)
            &&& 0 <= rank(s, m, q) <= h
            &&& n <= m
        }),
{
    lemma_placed_len(s, n, p, s.len() as int);
    lemma_next_due(s, n, p);
    let q = next_due(s, n, p);
    let m = s[q] as u32 as int;
    let i = rank(s, n, p);
    let k = rank(s, m, q);
    assert(due(s, n, p, q));
    lemma_place_next(s, n, p, q, s.len() as int);
    lemma_rank_monotone(s, m, 0, q);
    lemma_rank_monotone(s, n, 0, p);
    lemma_rank_counts_placed(s, n, p, p);
    lemma_placed_grows(s, n, p, p, s.len() as int);
    if m == n {
        lemma_rank_monotone(s, n, p, q);
        assert((m - n) * (h + 1) == 0) by (nonlinear_arith)
            requires
                m == n,
        ;
    } else {
        assert((m - n) * (h + 1) >= h + 1) by (nonlinear_arith)
            requires
                m - n >= 1,
                h >= 0,
        ;
    }
    vstd::arithmetic::div_mod::lemma_fundamental_div_mod_converse(
        (m - n) * (h + 1) + k,
        h + 1,
        m - n,
        k,
    );
}

proof fn lemma_placed_grows(s: Seq<char>, n: int, p: int, e: int, f: int)
    requires
        0 <= e <= f,
    ensures
        placed(s, n, p, e).len() <= placed(s, n, p, f).len(),
    decreases f,
{
    if e < f {
        lemma_placed_grows(s, n, p, e, f - 1);
    }
}

/// The numbers hold no delimiter, and a decoder that has placed what is not
/// due turns them into the whole label.
proof fn lemma_tail_decodes(
    s: Seq<char>,
    n: int,
    p: int,
    bias: int,
    h: int,
    b: int,
    text: Seq<char>,
    pos: int,
)
    requires
        h == placed(s, n, p, s.len() as int).len(),
        0 <= p <= s.len(),
        0 <= bias <= 215,
        0 <= b <= h,
        h == b <==> rank(s, n, p) == 0,
        0 <= pos <= text.len(),
        counter_fits(s, n, p, h),
        encoded_tail(s, n, p, rank(s, n, p), bias, h, b) == Some(text.skip(pos)),
    ensures
        insert_all(text, pos, placed(s, n, p, s.len() as int), n, rank(s, n, p), bias) == Ok::<
            _,
            PunycodeError,
        >(s),
        forall|j: int| pos <= j < text.len() ==> text[j] != '-',
    decreases s.len() - h,
{
    let out = placed(s, n, p, s.len() as int);
    let i = rank(s, n, p);
    lemma_placed_len(s, n, p, s.len() as int);
    if h >= s.len() {
        lemma_all_placed(s, n, p, s.len() as int);
        assert(s.take(s.len() as int) =~= s);
        assert(text.skip(pos).len() == 0);
    } else {
        lemma_delta_lands(s, n, p, h);
        let q = next_due(s, n, p);
        let m = s[q] as u32 as int;
        let delta = delta_to(s, n, i, h, q);
        let number = digits(delta, 36, bias);
        let j = i + delta;
        let rest = encoded_tail(
            s,
            m,
            q + 1,
            rank(s, m, q) + 1,
            adapted(delta, h + 1, h == b),
            h + 1,
            b,
        )->0;
        assert(text.skip(pos) == number + rest);
        assert(text.subrange(pos, pos + number.len()) =~= number) by {
            assert forall|x: int| 0 <= x < number.len() implies text[pos + x] == number[x] by {
                assert(text.skip(pos)[x] == (number + rest)[x]);
            }
        }
        assert(text.skip(pos + number.len()) =~= rest) by {
            assert forall|x: int| 0 <= x < rest.len() implies text[pos + number.len() + x]
                == rest[x] by {
                assert(text.skip(pos)[number.len() + x] == (number + rest)[number.len() + x]);
            }
        }
        lemma_read_digits(text, pos, delta, 36, bias, 1, i);
        lemma_digits_plain(delta, 36, bias);
        lemma_adapted_bound(delta, h + 1, h == b);
        lemma_place_next(s, n, p, q, s.len() as int);
        vstd::utf8::char_is_scalar(s[q]);
        vstd::utf8::char_u32_cast(s[q], m as u32);
        assert(rank(s, m, q + 1) == rank(s, m, q) + 1);
        lemma_tail_decodes(
            s,
            m,
            q + 1,
            adapted(delta, h + 1, h == b),
            h + 1,
            b,
            text,
            pos + number.len() as int,
        );
        assert forall|x: int| pos <= x < text.len() implies text[x] != '-' by {
            if x < pos + number.len() {
                assert(text.skip(pos)[x - pos] == number[x - pos]);
            }
        }
    }
}

proof fn lemma_last_delimiter_at(s: Seq<char>, cut: int)
    requires
        -1 <= cut < s.len(),
        cut >= 0 ==> s[cut] == '-',
        forall|j: int| cut < j < s.len() ==> s[j] != '-',
    ensures
        last_delimiter(s) == cut,
    decreases s.len(),
{
    if s.len() > cut + 1 {
        lemma_last_delimiter_at(s.drop_last(), cut);
    }
}

/// Decoding what was encoded gives back the text. A text whose counter
/// leaves 32 bits in the decoder, though each delta alone fits, is left out:
/// that one is encoded and refused when it is decoded.
pub proof fn law_decode_encoded(s: Seq<char>)
    requires
        encoded(s) is Some,
        counter_fits(s, 128, 0, basic_part(s).len() as int),
    ensures
        decoded(encoded(s)->0) == Ok::<_, PunycodeError>(s),
{
    let basic = basic_part(s);
    let b = basic.len() as int;
    let front = if basic.len() == 0 {
        basic
    } else {
        basic.push('-')
    };
    let rest = encoded_tail(s, 128, 0, 0, 72, b, b)->0;
    let text = encoded(s)->0;
    assert(text == front + rest);
    lemma_placed_basic(s, s.len() as int);
    assert(s.take(s.len() as int) =~= s);
    assert(rest.skip(0) =~= rest);
    lemma_tail_decodes(s, 128, 0, 72, b, b, rest, 0);
    let cut = front.len() - 1;
    assert forall|j: int| cut < j < text.len() implies text[j] != '-' by {
        assert(text[j] == rest[j - front.len()]);
    }
    lemma_last_delimiter_at(text, cut);
    assert(text.skip(cut + 1) =~= rest);
    lemma_basic_ascii(s, s.len() as int);
    if cut >= 0 {
        assert(text.take(cut) =~= basic);
    } else {
        assert(basic =~= Seq::empty());
    }
}

proof fn lemma_basic_ascii(s: Seq<char>, e: int)
    requires
        0 <= e <= s.len(),
    ensures
        all_ascii(placed(s, 128, 0, e)),
    decreases e,
{
    if e > 0 {
        lemma_basic_ascii(s, e - 1);
    }
}

// ---------------------------------------------------------------------
// Labels
// ---------------------------------------------------------------------

/// The prefix of an encoded label.
pub open spec fn ace_prefix() -> Seq<char> {
    seq!['x', 'n', '-', '-']
}

/// The ASCII form of a label: itself where it is ASCII, else the prefix and
/// the Punycode spelling.
pub open spec fn ascii_label(label: Seq<char>) -> Option<Seq<char>> {
    if all_ascii(label) {
        Some(label)
    } else {
        match encoded(label) {
            None => None,
            Some(text) => Some(ace_prefix() + text),
        }
    }
}

/// Whether `label` starts with the prefix of an encoded label.
pub open spec fn has_ace_prefix(label: Seq<char>) -> bool {
    label.len() >= 4 && label.take(4) == ace_prefix()
}

/// The label that an ASCII form stands for.
pub open spec fn unicode_label(label: Seq<char>) -> Result<Seq<char>, PunycodeError> {
    if has_ace_prefix(label) {
        decoded(label.skip(4))
    } else {
        Ok(label)
    }
}

impl PunycodeError {
    /// The message for people.
    pub open spec fn message(self) -> Seq<char> {
        match self {
            PunycodeError::InvalidInput => "punycode input contains an invalid basic code point"@,
            PunycodeError::Overflow => "punycode overflow while encoding or decoding"@,
        }
    }

    /// The message for people.
    pub fn to_string(&self) -> (r: String)
        ensures
            r@ == self.message(),
    {
        match self {
            PunycodeError::InvalidInput => "punycode input contains an invalid basic code point".to_owned(),
            PunycodeError::Overflow => "punycode overflow while encoding or decoding".to_owned(),
        }
    }
}

/// Whether every character of `label` is ASCII.
fn is_ascii_text(label: &str) -> (r: bool)
    ensures
        r == all_ascii(label@),
{
    let chars = chars_of(label);
    let mut i: usize = 0;
    while i < chars.len()
        invariant
            i <= chars@.len(),
            chars@ == label@,
            forall|q: int| 0 <= q < i ==> ((#[trigger] label@[q]) as u32) < 128,
        decreases chars.len() - i,
    {
        let c: u32 = chars[i] as u32;
        if c >= 128 {
            assert(label@[i as int] as u32 >= 128);
            return false;
        }
        i = i + 1;
    }
    true
}

/// ASCII-compatible form of one domain label: an ASCII label passes through
/// unchanged, any other is encoded and prefixed with `xn--`.
pub fn label_to_ascii(label: &str) -> (r: Result<String, PunycodeError>)
    requires
        label@.len() < u32::MAX,
    ensures
        match r {
            Ok(text) => ascii_label(label@) == Some(text@),
            Err(e) => ascii_label(label@) is None && e == PunycodeError::Overflow,
        },
{
    if is_ascii_text(label) {
        Ok(label.to_owned())
    } else {
        match encode(label) {
            Ok(text) => {
                let mut out = String::new();
                out.push('x');
                out.push('n');
                out.push('-');
                out.push('-');
                assert(out@ =~= ace_prefix());
                out.append(text.as_str());
                Ok(out)
            },
            Err(e) => Err(e),
        }
    }
}

/// Reverse of [`label_to_ascii`].
pub fn label_from_ascii(label: &str) -> (r: Result<String, PunycodeError>)
    requires
        label@.len() < u32::MAX,
    ensures
        match r {
            Ok(text) => unicode_label(label@) == Ok::<_, PunycodeError>(text@),
            Err(e) => unicode_label(label@) == Err::<Seq<char>, _>(e),
        },
{
    let chars = chars_of(label);
    if chars.len() >= 4 && chars[0] == 'x' && chars[1] == 'n' && chars[2] == '-' && chars[3]
        == '-' {
        assert(label@.take(4) =~= ace_prefix());
        let rest = string_between(&chars, 4, chars.len());
        assert(rest@ =~= label@.skip(4));
        decode(rest.as_str())
    } else {
        proof {
            if has_ace_prefix(label@) {
                assert(label@.take(4)[0] == 'x');
                assert(label@.take(4)[1] == 'n');
                assert(label@.take(4)[2] == '-');
                assert(label@.take(4)[3] == '-');
            }
        }
        Ok(label.to_owned())
    }
}

/// The ASCII form of a label that is not ASCII leads back to the label.
pub proof fn law_unicode_label_returns(label: Seq<char>)
    requires
        !all_ascii(label),
        ascii_label(label) is Some,
        counter_fits(label, 128, 0, basic_part(label).len() as int),
    ensures
        has_ace_prefix(ascii_label(label)->0),
        unicode_label(ascii_label(label)->0) == Ok::<_, PunycodeError>(label),
{
    let text = encoded(label)->0;
    assert((ace_prefix() + text).take(4) =~= ace_prefix());
    assert((ace_prefix() + text).skip(4) =~= text);
    law_decode_encoded(label);
}

/// An ASCII label leads back to itself unless it already looks encoded.
pub proof fn law_ascii_label_returns(label: Seq<char>)
    requires
        all_ascii(label),
        !has_ace_prefix(label),
    ensures
        ascii_label(label) == Some(label),
        unicode_label(label) == Ok::<_, PunycodeError>(label),
{
}

/// The ASCII form of a label is ASCII.
pub proof fn law_ascii_label_is_ascii(label: Seq<char>)
    requires
        ascii_label(label) is Some,
    ensures
        all_ascii(ascii_label(label)->0),
{
    if !all_ascii(label) {
        let b = basic_part(label).len() as int;
        lemma_placed_basic(label, label.len() as int);
        assert(label.take(label.len() as int) =~= label);
        lemma_basic_ascii(label, label.len() as int);
        lemma_tail_ascii(label, 128, 0, 72, b, b);
    }
}

proof fn lemma_digits_ascii(q: int, k: int, bias: int)
    requires
        0 <= q,
    ensures
        all_ascii(digits(q, k, bias)),
    decreases q,
{
    let t = threshold(k, bias);
    if q >= t {
        lemma_quotient_shrinks(q, t);
        lemma_digits_ascii((q - t) / (36 - t), k + 36, bias);
    }
}

proof fn lemma_tail_ascii(s: Seq<char>, n: int, p: int, bias: int, h: int, b: int)
    requires
        h == placed(s, n, p, s.len() as int).len(),
        0 <= p <= s.len(),
        encoded_tail(s, n, p, rank(s, n, p), bias, h, b) is Some,
    ensures
        all_ascii(encoded_tail(s, n, p, rank(s, n, p), bias, h, b)->0),
    decreases s.len() - h,
{
    if h < s.len() {
        lemma_delta_lands(s, n, p, h);
        let q = next_due(s, n, p);
        let m = s[q] as u32 as int;
        let delta = delta_to(s, n, rank(s, n, p), h, q);
        lemma_place_next(s, n, p, q, s.len() as int);
        assert(rank(s, m, q + 1) == rank(s, m, q) + 1);
        lemma_digits_ascii(delta, 36, bias);
        lemma_tail_ascii(s, m, q + 1, adapted(delta, h + 1, h == b), h + 1, b);
    }
}

/// How many characters a text may have for no number in its encoding to
/// leave 32 bits, whatever the characters are.
pub const ALWAYS_ENCODED: usize = 3855;

proof fn lemma_short_fits(s: Seq<char>, n: int, p: int, bias: int, h: int, b: int)
    requires
        s.len() <= ALWAYS_ENCODED,
        h == placed(s, n, p, s.len() as int).len(),
        0 <= p <= s.len(),
        0 <= n,
    ensures
        counter_fits(s, n, p, h),
        encoded_tail(s, n, p, rank(s, n, p), bias, h, b) is Some,
    decreases s.len() - h,
{
    if h < s.len() {
        lemma_delta_lands(s, n, p, h);
        let q = next_due(s, n, p);
        let m = s[q] as u32 as int;
        let delta = delta_to(s, n, rank(s, n, p), h, q);
        lemma_place_next(s, n, p, q, s.len() as int);
        assert(rank(s, m, q + 1) == rank(s, m, q) + 1);
        vstd::utf8::char_is_scalar(s[q]);
        assert((m - n) * (h + 1) <= 0x10ffff * (h + 1)) by (nonlinear_arith)
            requires
                m - n <= 0x10ffff,
                h >= 0,
        ;
        lemma_short_fits(s, m, q + 1, adapted(delta, h + 1, h == b), h + 1, b);
    }
}

/// A text of some thousand characters is always encoded, and decoding gives
/// it back.
pub proof fn law_short_text_returns(s: Seq<char>)
    requires
        s.len() <= ALWAYS_ENCODED,
    ensures
        encoded(s) is Some,
        decoded(encoded(s)->0) == Ok::<_, PunycodeError>(s),
{
    let b = basic_part(s).len() as int;
    lemma_placed_basic(s, s.len() as int);
    assert(s.take(s.len() as int) =~= s);
    lemma_short_fits(s, 128, 0, 72, b, b);
    law_decode_encoded(s);
}

/// A label of some thousand characters always has an ASCII form, which leads
/// back to the label, unless it is ASCII already and looks encoded.
pub proof fn law_short_label_returns(label: Seq<char>)
    requires
        label.len() <= ALWAYS_ENCODED,
        !(all_ascii(label) && has_ace_prefix(label)),
    ensures
        ascii_label(label) is Some,
        unicode_label(ascii_label(label)->0) == Ok::<_, PunycodeError>(label),
{
    if all_ascii(label) {
        law_ascii_label_returns(label);
    } else {
        let b = basic_part(label).len() as int;
        lemma_placed_basic(label, label.len() as int);
        assert(label.take(label.len() as int) =~= label);
        lemma_short_fits(label, 128, 0, 72, b, b);
        law_unicode_label_returns(label);
    }
}

/// The digits are the letters and then the numerals; the letters are read in
/// either case, and nothing else is a digit.
pub proof fn law_digits_spelled(d: int, c: char)
    requires
        0 <= d < 36,
    ensures
        digit_spelling(d) == "abcdefghijklmnopqrstuvwxyz0123456789"@[d],
        digit_value("abcdefghijklmnopqrstuvwxyz0123456789"@[d]) == Some(d),
        digit_value("ABCDEFGHIJKLMNOPQRSTUVWXYZ0123456789"@[d]) == Some(d),
        !('a' <= c <= 'z' || 'A' <= c <= 'Z' || '0' <= c <= '9') ==> digit_value(c) is None,
{
    reveal_strlit("abcdefghijklmnopqrstuvwxyz0123456789");
    reveal_strlit("ABCDEFGHIJKLMNOPQRSTUVWXYZ0123456789");
}

/// The threshold is how far the position is beyond the bias, but at least one
/// and at most 26.
pub proof fn law_threshold_within(k: int, bias: int)
    ensures
        1 <= threshold(k, bias) <= 26,
        1 <= k - bias <= 26 ==> threshold(k, bias) == k - bias,
        k - bias < 1 ==> threshold(k, bias) == 1,
        k - bias > 26 ==> threshold(k, bias) == 26,
{
}

/// The bias grows by 36 for each time that a delta can be scaled down by 35
/// before it is at most 455, and by 36 parts in `d + 38` of what is left,
/// rounded down.
pub proof fn law_bias_grows(d: int, k: int)
    requires
        d >= 0,
    ensures
        d > 455 ==> adapt_scaled(d, k) == adapt_scaled(d / 35, k) + 36,
        d <= 455 ==> (adapt_scaled(d, k) - k) * (d + 38) <= 36 * d < (adapt_scaled(d, k) - k + 1)
            * (d + 38),
    decreases d,
{
    if d > 455 {
        lemma_bias_shifts(d / 35, k, 36);
    } else {
        let b = adapt_scaled(d, k) - k;
        vstd::arithmetic::div_mod::lemma_fundamental_div_mod(36 * d, d + 38);
        assert(b * (d + 38) <= 36 * d < (b + 1) * (d + 38)) by (nonlinear_arith)
            requires
                36 * d == (d + 38) * b + (36 * d) % (d + 38),
                0 <= (36 * d) % (d + 38) < d + 38,
        ;
    }
}

proof fn lemma_bias_shifts(d: int, k: int, by: int)
    requires
        d >= 0,
    ensures
        adapt_scaled(d, k + by) == adapt_scaled(d, k) + by,
    decreases d,
{
    if d > 455 {
        lemma_bias_shifts(d / 35, k + 36, by);
        assert(k + 36 + by == k + by + 36);
    }
}

/// A delta is damped before it sets the bias: the first one by 700, any other
/// by two; and a share of it is added for the characters that are placed.
pub proof fn law_delta_damped(delta: int, points: int)
    requires
        delta >= 0,
        points >= 1,
    ensures
        adapted(delta, points, true) == adapt_scaled(delta / 700 + delta / 700 / points, 0),
        adapted(delta, points, false) == adapt_scaled(delta / 2 + delta / 2 / points, 0),
{
}

/// An encoded text has its ASCII characters in front, in their order, and a
/// hyphen behind them where there are any. A text of nothing but ASCII is
/// encoded as just that.
pub proof fn law_ascii_in_front(s: Seq<char>)
    ensures
        encoded(s) matches Some(text) ==> {
            let plain = s.filter(|c: char| (c as u32) <= 127);
            &&& plain.len() > 0 ==> text.len() > plain.len() && text.take(plain.len() as int)
                == plain && text[plain.len() as int] == '-'
            &&& plain.len() == s.len() && s.len() > 0 ==> text == plain.push('-')
            &&& s.len() == 0 ==> text.len() == 0
        },
{
    let narrow = |c: char| (c as u32) < 128;
    let wide = |c: char| (c as u32) <= 127;
    assert(narrow =~= wide);
    let plain = s.filter(wide);
    assert(basic_part(s) == plain);
    if let Some(text) = encoded(s) {
        if plain.len() > 0 {
            assert(text.take(plain.len() as int) =~= plain);
        }
        if plain.len() >= s.len() {
            let none: Seq<char> = Seq::empty();
            assert(encoded_tail(s, 128, 0, 0, 72, plain.len() as int, plain.len() as int) == Some(
                none,
            ));
            if plain.len() > 0 {
                assert(text =~= plain.push('-'));
            }
        }
        s.lemma_filter_len(wide);
    }
}

/// A label is ASCII where every character is below 128; then it is its own
/// ASCII form, and else its form has the prefix `xn--` in front of the encoded
/// text. Only a label with just this prefix is decoded.
pub proof fn law_prefix_marks_encoded(label: Seq<char>)
    ensures
        ({
            let ascii = forall|i: int| 0 <= i < label.len() ==> (#[trigger] label[i] as u32) <= 127;
            let marked = label.len() >= 4 && label[0] == 'x' && label[1] == 'n' && label[2] == '-'
                && label[3] == '-';
            &&& ascii ==> ascii_label(label) == Some(label)
            &&& !ascii && encoded(label) is None ==> ascii_label(label) is None
            &&& !ascii && encoded(label) is Some ==> ascii_label(label) == Some(
                seq!['x', 'n', '-', '-'] + encoded(label)->0,
            )
            &&& marked ==> unicode_label(label) == decoded(label.skip(4))
            &&& !marked ==> unicode_label(label) == Ok::<_, PunycodeError>(label)
        }),
{
    let ascii = forall|i: int| 0 <= i < label.len() ==> (#[trigger] label[i] as u32) <= 127;
    if ascii {
        assert(all_ascii(label)) by {
            assert forall|q: int| 0 <= q < label.len() implies ((#[trigger] label[q]) as u32)
                < 128 by {
                assert(label[q] as u32 <= 127);
            }
        }
    }
    if all_ascii(label) {
        assert forall|i: int| 0 <= i < label.len() implies (#[trigger] label[i] as u32) <= 127 by {
            assert((label[i] as u32) < 128);
        }
    }
    if label.len() >= 4 {
        let front = label.take(4);
        if label[0] == 'x' && label[1] == 'n' && label[2] == '-' && label[3] == '-' {
            assert(front =~= seq!['x', 'n', '-', '-']);
        }
        if front == ace_prefix() {
            assert(front[0] == 'x' && front[1] == 'n' && front[2] == '-' && front[3] == '-');
        }
    }
}

/// A number is read digit by digit: each counts by the weight that it has, and
/// the first one below the threshold ends the number. What is no digit, or is
/// cut off, is refused, and so is a number that leaves 32 bits.
pub proof fn law_number_read_on(text: Seq<char>, pos: int, k: int, bias: int, w: int, i: int)
    requires
        0 <= pos,
    ensures
        ({
            let found = read_number(text, pos, k, bias, w, i);
            let t = threshold(k, bias);
            &&& pos >= text.len() ==> found == Err::<(int, int), _>(PunycodeError::InvalidInput)
            &&& pos < text.len() ==> match digit_value(text[pos]) {
                None => found == Err::<(int, int), _>(PunycodeError::InvalidInput),
                Some(d) => {
                    let sum = i + d * w;
                    let fits = d * w <= 0xffff_ffff && sum <= 0xffff_ffff;
                    &&& !fits ==> found == Err::<(int, int), _>(PunycodeError::Overflow)
                    &&& fits && d < t ==> found == Ok::<_, PunycodeError>((sum, pos + 1))
                    &&& fits && d >= t && w * (36 - t) > 0xffff_ffff ==> found == Err::<
                        (int, int),
                        _,
                    >(PunycodeError::Overflow)
                    &&& fits && d >= t && w * (36 - t) <= 0xffff_ffff ==> found == read_number(
                        text,
                        pos + 1,
                        k + 36,
                        bias,
                        w * (36 - t),
                        sum,
                    )
                },
            }
        }),
{
}

/// What is decoded is the ASCII text before the last hyphen, with the
/// characters inserted that the numbers behind it describe; the counting
/// starts at code point 128 with the bias 72.
pub proof fn law_decoded_from_parts(basic: Seq<char>, tail: Seq<char>)
    requires
        forall|i: int| 0 <= i < tail.len() ==> tail[i] != '-',
    ensures
        ({
            let plain = forall|i: int| 0 <= i < basic.len() ==> (#[trigger] basic[i] as u32) <= 127;
            &&& plain ==> decoded(basic.push('-') + tail) == insert_all(tail, 0, basic, 128, 0, 72)
            &&& !plain ==> decoded(basic.push('-') + tail) == Err::<Seq<char>, _>(
                PunycodeError::InvalidInput,
            )
            &&& decoded(tail) == insert_all(tail, 0, Seq::empty(), 128, 0, 72)
            &&& insert_all(Seq::empty(), 0, basic, 128, 0, 72) == Ok::<_, PunycodeError>(basic)
        }),
{
    let text = basic.push('-') + tail;
    let cut = basic.len() as int;
    assert forall|j: int| cut < j < text.len() implies text[j] != '-' by {
        assert(text[j] == tail[j - cut - 1]);
    }
    lemma_last_delimiter_at(text, cut);
    lemma_last_delimiter_at(tail, -1);
    assert(text.take(cut) =~= basic);
    assert(text.skip(cut + 1) =~= tail);
    assert(tail.skip(0) =~= tail);
    let plain = forall|i: int| 0 <= i < basic.len() ==> (#[trigger] basic[i] as u32) <= 127;
    if plain {
        assert forall|q: int| 0 <= q < basic.len() implies ((#[trigger] basic[q]) as u32) < 128 by {
            assert(basic[q] as u32 <= 127);
        }
        assert(all_ascii(basic));
    }
    if all_ascii(basic) {
        assert forall|i: int| 0 <= i < basic.len() implies (#[trigger] basic[i] as u32) <= 127 by {
            assert((basic[i] as u32) < 128);
        }
    }
}

} // verus!
