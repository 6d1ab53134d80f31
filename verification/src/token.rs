//! Registration tokens: the time and the random bytes that a client is
//! issued with when it registers a domain. They tell registrations of the
//! same domain apart and put them in order.

use rand::RngCore;
use vstd::prelude::*;
use crate::bytes::{be64, push_be64};

verus! {

/// A claim on a domain name: the time of issue and eight random bytes.
///
/// Two clients that race for a name get different tokens; which one wins is
/// decided by [`crate::collision::resolve`].
#[derive(Debug, Clone, Copy, PartialEq, Eq)]
pub struct RegistrationToken {
    pub issued_at_millis: u64,
    pub nonce: [u8; 8],
}

/// The bytes by which tokens are ordered: the time, high byte first, then
/// the random bytes.
pub open spec fn ordering_key(token: RegistrationToken) -> Seq<u8> {
    be64(token.issued_at_millis) + token.nonce@
}

/// Lexicographic order on byte sequences.
pub open spec fn lex_less(a: Seq<u8>, b: Seq<u8>) -> bool
    decreases a.len(),
{
    if b.len() == 0 {
        false
    } else if a.len() == 0 {
        true
    } else {
        a[0] < b[0] || (a[0] == b[0] && lex_less(a.drop_first(), b.drop_first()))
    }
}

/// Eight random bytes: `fill_bytes` of the thread's random number generator
/// overwrites the whole array. Nothing is said of the bytes. (The generator
/// gets its seed from the operating system, and panics where there is none to
/// be had. So it is wherever this library draws lots.)
#[verifier::external_body]
pub(crate) fn random_nonce() -> (r: [u8; 8]) {
    let mut nonce = [0u8; 8];
    rand::thread_rng().fill_bytes(&mut nonce);
    nonce
}

/// Whether the random number generator may give these bytes.
pub closed spec fn drawn(nonce: [u8; 8]) -> bool {
    call_ensures(random_nonce, (), nonce)
}

/// Draws the random bytes for a token.
pub(crate) fn draw_nonce() -> (r: [u8; 8])
    ensures
        drawn(r),
{
    random_nonce()
}

impl RegistrationToken {
    /// Issues a token for the given time with fresh random bytes.
    pub fn issue(issued_at_millis: u64) -> (r: Self)
        ensures
            r.issued_at_millis == issued_at_millis,
            drawn(r.nonce),
    {
        RegistrationToken { issued_at_millis, nonce: draw_nonce() }
    }

    /// The bytes by which tokens are ordered.
    pub fn raw_ordering_key(&self) -> (r: [u8; 16])
        ensures
            r@ == ordering_key(*self),
    {
        let mut bytes: Vec<u8> = Vec::new();
        push_be64(&mut bytes, self.issued_at_millis);
        crate::bytes::push_bytes(&mut bytes, self.nonce.as_slice());
        assert(bytes@ =~= ordering_key(*self));
        crate::bytes::sixteen(&bytes)
    }
}

/// Whether two tokens are the same.
pub fn same_token(a: &RegistrationToken, b: &RegistrationToken) -> (r: bool)
    ensures
        r == (*a == *b),
{
    if a.issued_at_millis != b.issued_at_millis {
        return false;
    }
    let mut i: usize = 0;
    while i < 8
        invariant
            i <= 8,
            forall|j: int| 0 <= j < i ==> a.nonce@[j] == b.nonce@[j],
        decreases 8 - i,
    {
        if a.nonce[i] != b.nonce[i] {
            assert(a.nonce@[i as int] != b.nonce@[i as int]);
            return false;
        }
        i = i + 1;
    }
    assert(a.nonce =~= b.nonce);
    true
}

/// Whether `a` comes before `b` in lexicographic order.
pub fn key_less(a: &[u8; 16], b: &[u8; 16]) -> (r: bool)
    ensures
        r == lex_less(a@, b@),
{
    let mut i: usize = 0;
    assert(a@.skip(0) =~= a@);
    assert(b@.skip(0) =~= b@);
    while i < 16
        invariant
            i <= 16,
            lex_less(a@, b@) == lex_less(a@.skip(i as int), b@.skip(i as int)),
        decreases 16 - i,
    {
        assert(a@.skip(i as int).drop_first() =~= a@.skip(i + 1));
        assert(b@.skip(i as int).drop_first() =~= b@.skip(i + 1));
        if a[i] < b[i] {
            return true;
        }
        if a[i] > b[i] {
            return false;
        }
        i = i + 1;
    }
    false
}

// ---------------------------------------------------------------------
// Laws
// ---------------------------------------------------------------------

/// Of two different sequences of one length exactly one comes first, and
/// none comes before itself.
pub proof fn law_lex_total(a: Seq<u8>, b: Seq<u8>)
    requires
        a.len() == b.len(),
    ensures
        a == b <==> !lex_less(a, b) && !lex_less(b, a),
        !(lex_less(a, b) && lex_less(b, a)),
    decreases a.len(),
{
    if a.len() > 0 {
        law_lex_total(a.drop_first(), b.drop_first());
        if a[0] == b[0] && a.drop_first() == b.drop_first() {
            assert(a =~= seq![a[0]] + a.drop_first());
            assert(b =~= seq![b[0]] + b.drop_first());
        }
    } else {
        assert(a =~= b);
    }
}

/// The order is transitive.
pub proof fn law_lex_transitive(a: Seq<u8>, b: Seq<u8>, c: Seq<u8>)
    requires
        lex_less(a, b),
        lex_less(b, c),
    ensures
        lex_less(a, c),
    decreases a.len(),
{
    if a.len() > 0 && b.len() > 0 && c.len() > 0 && a[0] == b[0] && b[0] == c[0] {
        law_lex_transitive(a.drop_first(), b.drop_first(), c.drop_first());
    }
}

/// A common front does not matter to the order.
proof fn lemma_lex_common_front(front: Seq<u8>, a: Seq<u8>, b: Seq<u8>)
    ensures
        lex_less(front + a, front + b) == lex_less(a, b),
    decreases front.len(),
{
    if front.len() == 0 {
        assert(front + a =~= a);
        assert(front + b =~= b);
    } else {
        lemma_lex_common_front(front.drop_first(), a, b);
        assert((front + a).drop_first() =~= front.drop_first() + a);
        assert((front + b).drop_first() =~= front.drop_first() + b);
    }
}

/// Bytes that differ decide, whatever comes behind them.
proof fn lemma_lex_decided(a: Seq<u8>, b: Seq<u8>, x: Seq<u8>, y: Seq<u8>)
    requires
        a.len() == b.len(),
        lex_less(a, b),
    ensures
        lex_less(a + x, b + y),
    decreases a.len(),
{
    if a[0] == b[0] {
        lemma_lex_decided(a.drop_first(), b.drop_first(), x, y);
        assert((a + x).drop_first() =~= a.drop_first() + x);
        assert((b + y).drop_first() =~= b.drop_first() + y);
    }
}

proof fn lemma_be32_order(a: u32, b: u32)
    requires
        a < b,
    ensures
        lex_less(crate::bytes::be32(a), crate::bytes::be32(b)),
{
    let x = crate::bytes::be32(a);
    let y = crate::bytes::be32(b);
    lemma_be32_spells(a);
    lemma_be32_spells(b);
    let k: int = if x[0] != y[0] {
        0
    } else if x[1] != y[1] {
        1
    } else if x[2] != y[2] {
        2
    } else {
        3
    };
    assert(x[k] < y[k]);
    lemma_lex_first_difference(x, y, k);
}

/// A number is spelled by its four bytes.
proof fn lemma_be32_spells(v: u32)
    ensures
        ({
            let x = crate::bytes::be32(v);
            v == x[0] * 0x100_0000 + x[1] * 0x1_0000 + x[2] * 256 + x[3]
        }),
{
    let x = crate::bytes::be32(v);
    assert(x[0] == v / 0x100_0000);
    assert(x[1] == v / 0x1_0000 % 256);
    assert(x[2] == v / 256 % 256);
    assert(x[3] == v % 256);
}

/// The first byte that differs decides.
proof fn lemma_lex_first_difference(a: Seq<u8>, b: Seq<u8>, k: int)
    requires
        0 <= k < a.len(),
        a.len() == b.len(),
        forall|j: int| 0 <= j < k ==> a[j] == b[j],
        a[k] < b[k],
    ensures
        lex_less(a, b),
    decreases k,
{
    if k > 0 {
        let x = a.drop_first();
        let y = b.drop_first();
        assert forall|j: int| 0 <= j < k - 1 implies x[j] == y[j] by {
            assert(a[j + 1] == b[j + 1]);
        }
        lemma_lex_first_difference(x, y, k - 1);
    }
}

/// A token that was issued later comes later, whatever its random bytes.
pub proof fn law_later_token_sorts_higher(a: RegistrationToken, b: RegistrationToken)
    requires
        a.issued_at_millis < b.issued_at_millis,
    ensures
        lex_less(ordering_key(a), ordering_key(b)),
{
    let x = a.issued_at_millis;
    let y = b.issued_at_millis;
    let xh = crate::bytes::be32((x / 0x1_0000_0000) as u32);
    let yh = crate::bytes::be32((y / 0x1_0000_0000) as u32);
    let xl = crate::bytes::be32((x % 0x1_0000_0000) as u32);
    let yl = crate::bytes::be32((y % 0x1_0000_0000) as u32);
    if x / 0x1_0000_0000 < y / 0x1_0000_0000 {
        lemma_be32_order((x / 0x1_0000_0000) as u32, (y / 0x1_0000_0000) as u32);
        lemma_lex_decided(xh, yh, xl, yl);
    } else {
        lemma_be32_order((x % 0x1_0000_0000) as u32, (y % 0x1_0000_0000) as u32);
        lemma_lex_common_front(xh, xl, yl);
    }
    lemma_lex_decided(be64(x), be64(y), a.nonce@, b.nonce@);
}

/// Different tokens have different keys, so the order tells them apart.
pub proof fn law_key_tells_tokens_apart(a: RegistrationToken, b: RegistrationToken)
    requires
        ordering_key(a) == ordering_key(b),
    ensures
        a == b,
{
    if a.issued_at_millis < b.issued_at_millis {
        law_later_token_sorts_higher(a, b);
        law_lex_total(ordering_key(a), ordering_key(b));
    } else if b.issued_at_millis < a.issued_at_millis {
        law_later_token_sorts_higher(b, a);
        law_lex_total(ordering_key(a), ordering_key(b));
    } else {
        assert forall|i: int| 0 <= i < 8 implies a.nonce[i] == b.nonce[i] by {
            assert(ordering_key(a)[8 + i] == a.nonce@[i]);
            assert(ordering_key(b)[8 + i] == b.nonce@[i]);
        }
        assert(a.nonce =~= b.nonce);
    }
}

/// The order of two keys is decided by the first byte in which they differ.
pub proof fn law_first_difference_decides(a: Seq<u8>, b: Seq<u8>, k: int)
    requires
        a.len() == b.len(),
        0 <= k < a.len(),
        forall|j: int| 0 <= j < k ==> a[j] == b[j],
        a[k] != b[k],
    ensures
        lex_less(a, b) <==> a[k] < b[k],
{
    if a[k] < b[k] {
        lemma_lex_first_difference(a, b, k);
    } else {
        lemma_lex_first_difference(b, a, k);
        law_lex_total(a, b);
    }
}

/// A key spells the time of issue, high byte first, and the random bytes
/// behind it.
pub proof fn law_ordering_key_parts(token: RegistrationToken)
    ensures
        ordering_key(token).len() == 16,
        crate::bytes::value32(ordering_key(token), 0) * 0x1_0000_0000 + crate::bytes::value32(
            ordering_key(token),
            4,
        ) == token.issued_at_millis,
        forall|i: int| 0 <= i < 8 ==> #[trigger] token.nonce[i] == ordering_key(token)[8 + i],
{
    let key = ordering_key(token);
    let time = token.issued_at_millis;
    let none: Seq<u8> = Seq::empty();
    let high = crate::bytes::be32((time / 0x1_0000_0000) as u32);
    let low = crate::bytes::be32((time % 0x1_0000_0000) as u32);
    assert(key =~= none + high + (low + token.nonce@));
    crate::bytes::law_be32_round_trip(none, (time / 0x1_0000_0000) as u32, low + token.nonce@);
    assert(key =~= high + low + token.nonce@);
    crate::bytes::law_be32_round_trip(high, (time % 0x1_0000_0000) as u32, token.nonce@);
}

/// Bytes count as drawn only where the random number generator gave them.
pub(crate) proof fn law_drawn_by_generator(nonce: [u8; 8])
    requires
        drawn(nonce),
    ensures
        call_ensures(random_nonce, (), nonce),
{
}

} // verus!
