//! Client identity: a public key and the reverse-DNS host name that a
//! registration is bound to.

use ed25519_dalek::{Signature, Verifier, VerifyingKey};
use vstd::prelude::*;
use crate::text::{
    hex, hex_text, lower, lower_text, trim_back, trim_back_char, trim_end_char, trim_front,
    trim_text,
};

verus! {

// ---------------------------------------------------------------------
// Ed25519, taken on trust
// ---------------------------------------------------------------------

/// Whether `VerifyingKey::from_bytes` takes the bytes for a public key.
pub uninterp spec fn is_public_key(bytes: Seq<u8>) -> bool;

/// Whether the public key verifies the signature over the message, as
/// `VerifyingKey::verify` has it.
pub uninterp spec fn signature_holds(key: Seq<u8>, message: Seq<u8>, signature: Seq<u8>) -> bool;

/// `VerifyingKey::from_bytes` takes 32 bytes for a public key or refuses
/// them, which depends on the bytes alone.
#[verifier::external_body]
pub(crate) fn accepts_key(bytes: &[u8; 32]) -> (r: bool)
    ensures
        r == is_public_key(bytes@),
{
    VerifyingKey::from_bytes(bytes).is_ok()
}

/// `Signature::from_slice` takes any 64 bytes for a signature, and nothing
/// of another length. Whether it verifies is another matter.
#[verifier::external_body]
pub(crate) fn accepts_signature(bytes: &[u8]) -> (r: bool)
    ensures
        r == (bytes@.len() == 64),
{
    Signature::from_slice(bytes).is_ok()
}

/// `VerifyingKey::verify` says whether the signature over the message was
/// made with the private key that belongs to the public key. The outcome
/// depends on the three alone, and is negative where the bytes are no public
/// key.
#[verifier::external_body]
fn verifies(key: &[u8; 32], message: &[u8], signature: &[u8; 64]) -> (r: bool)
    ensures
        r == signature_holds(key@, message@, signature@),
        !is_public_key(key@) ==> !r,
{
    match VerifyingKey::from_bytes(key) {
        Ok(key) => key.verify(message, &Signature::from_bytes(signature)).is_ok(),
        Err(_) => false,
    }
}

// ---------------------------------------------------------------------
// Identities
// ---------------------------------------------------------------------

/// A client's public identity: an Ed25519 public key and the host name that
/// it claims to speak for.
///
/// A host name is preferred over an address because it survives a move
/// within a hosting account, and still costs a real delegation to forge. A
/// deployment may use the text of an address in its place.
#[derive(Debug, PartialEq, Eq, Hash)]
pub struct ClientIdentity {
    pub verifying_key: [u8; 32],
    pub rdns: String,
}

/// Why a signature was not accepted.
#[derive(Debug, Clone, Copy, PartialEq, Eq, Structural)]
pub enum ClientAuthError {
    /// The signature does not verify against the public key.
    InvalidSignature,
}

/// The text that identifies a client: its public key and its host name, so
/// that a stolen host name alone cannot stand for the client.
pub open spec fn client_key_of(verifying_key: Seq<u8>, rdns: Seq<char>) -> Seq<char> {
    hex(verifying_key).push('@') + rdns
}

/// A host name in canonical form: without white space around it, without
/// trailing dots, in lower case.
pub open spec fn canonical_host(rdns: Seq<char>) -> Seq<char> {
    lower(trim_back_char(trim_back(trim_front(rdns)), '.'))
}

/// Brings a host name into canonical form.
pub fn canonical_host_text(rdns: &str) -> (r: String)
    ensures
        r@ == canonical_host(rdns@),
{
    lower_text(trim_end_char(trim_text(rdns).as_str(), '.').as_str())
}

impl Clone for ClientIdentity {
    fn clone(&self) -> (r: Self)
        ensures
            r == *self,
    {
        ClientIdentity { verifying_key: self.verifying_key, rdns: self.rdns.clone() }
    }
}

impl ClientAuthError {
    /// The message for people.
    pub open spec fn message(self) -> Seq<char> {
        "signature does not verify against the supplied public key"@
    }

    /// The message for people.
    pub fn to_string(&self) -> (r: String)
        ensures
            r@ == self.message(),
    {
        "signature does not verify against the supplied public key".to_owned()
    }
}

impl ClientIdentity {
    /// What [`ClientIdentity::key`] returns.
    pub open spec fn spec_key(self) -> Seq<char> {
        client_key_of(self.verifying_key@, self.rdns@)
    }

    /// What [`ClientIdentity::quota_key`] returns.
    pub open spec fn spec_quota_key(self) -> Seq<char> {
        canonical_host(self.rdns@)
    }

    /// The identity of a public key on a host.
    pub fn new(verifying_key: [u8; 32], rdns: &str) -> (r: Self)
        ensures
            r.verifying_key == verifying_key,
            r.rdns@ == rdns@,
    {
        ClientIdentity { verifying_key, rdns: rdns.to_owned() }
    }

    /// A stable text that identifies this client: its public key in
    /// hexadecimal and its host name.
    pub fn key(&self) -> (r: String)
        ensures
            r@ == self.spec_key(),
    {
        let mut out = hex_text(self.verifying_key.as_slice());
        out.push('@');
        out.append(self.rdns.as_str());
        out
    }

    /// The host whose capacity a registration takes.
    ///
    /// Keys are cheap to make: they authenticate, but they must not make
    /// room for more domains. The canonical form keeps case, white space and
    /// a trailing dot from splitting one host's allowance.
    pub fn quota_key(&self) -> (r: String)
        ensures
            r@ == self.spec_quota_key(),
    {
        canonical_host_text(self.rdns.as_str())
    }

    /// Verifies that `signature` over `message` was made with this client's
    /// private key.
    pub fn verify(&self, message: &[u8], signature: &[u8; 64]) -> (r: Result<(), ClientAuthError>)
        ensures
            match r {
                Ok(_) => signature_holds(self.verifying_key@, message@, signature@)
                    && is_public_key(self.verifying_key@),
                Err(e) => !signature_holds(self.verifying_key@, message@, signature@) && e
                    == ClientAuthError::InvalidSignature,
            },
    {
        if verifies(&self.verifying_key, message, signature) {
            Ok(())
        } else {
            Err(ClientAuthError::InvalidSignature)
        }
    }
}

// ---------------------------------------------------------------------
// Laws
// ---------------------------------------------------------------------

proof fn lemma_lower_plain(s: Seq<char>)
    ensures
        lower(lower(s)) == lower(s),
        forall|i: int|
            0 <= i < s.len() ==> crate::text::is_white(#[trigger] lower(s)[i])
                == crate::text::is_white(s[i]) && ((lower(s)[i] == '.') == (s[i] == '.')),
{
    assert(lower(lower(s)) =~= lower(s));
}

proof fn lemma_trim_front_lower(s: Seq<char>)
    ensures
        trim_front(lower(s)) == lower(trim_front(s)),
    decreases s.len(),
{
    lemma_lower_plain(s);
    if s.len() > 0 {
        assert(lower(s).drop_first() =~= lower(s.drop_first()));
        if crate::text::is_white(s[0]) {
            lemma_trim_front_lower(s.drop_first());
        }
    }
}

proof fn lemma_trim_back_lower(s: Seq<char>)
    ensures
        trim_back(lower(s)) == lower(trim_back(s)),
        trim_back_char(lower(s), '.') == lower(trim_back_char(s, '.')),
    decreases s.len(),
{
    lemma_lower_plain(s);
    if s.len() > 0 {
        assert(lower(s).drop_last() =~= lower(s.drop_last()));
        assert(lower(s).last() == lower(s)[s.len() - 1]);
        lemma_trim_back_lower(s.drop_last());
    }
}

/// Letter case cannot split one host's allowance.
pub proof fn law_host_ignores_case(rdns: Seq<char>)
    ensures
        canonical_host(lower(rdns)) == canonical_host(rdns),
{
    lemma_trim_front_lower(rdns);
    lemma_trim_back_lower(trim_front(rdns));
    lemma_trim_back_lower(trim_back(trim_front(rdns)));
    lemma_lower_plain(trim_back_char(trim_back(trim_front(rdns)), '.'));
}

/// Trailing dots and white space around the name cannot split one host's
/// allowance.
pub proof fn law_host_ignores_trailing_dot(rdns: Seq<char>)
    requires
        rdns.len() > 0,
        !crate::text::is_white(rdns[0]),
        !crate::text::is_white(rdns.last()),
    ensures
        canonical_host(rdns.push('.')) == canonical_host(rdns),
        canonical_host(rdns.push(' ')) == canonical_host(rdns),
        canonical_host(seq![' '] + rdns) == canonical_host(rdns),
{
    let dotted = rdns.push('.');
    let spaced = rdns.push(' ');
    let shifted = seq![' '] + rdns;
    assert(dotted.last() == '.');
    assert(dotted.drop_last() =~= rdns);
    assert(spaced.drop_last() =~= rdns);
    assert(shifted.drop_first() =~= rdns);
    assert(trim_front(rdns) == rdns);
    assert(trim_front(dotted) == dotted);
    assert(trim_front(spaced) == spaced);
    assert(trim_front(shifted) == rdns);
    assert(trim_back(rdns) == rdns);
    assert(trim_back(dotted) == dotted);
    assert(trim_back(spaced) == rdns);
    assert(trim_back_char(dotted, '.') == trim_back_char(rdns, '.'));
}

proof fn lemma_hex_digit_injective(a: int, b: int)
    requires
        0 <= a < 16,
        0 <= b < 16,
        crate::text::hex_digit(a) == crate::text::hex_digit(b),
    ensures
        a == b,
{
}

/// Two clients have the same key only where both the public key and the host
/// name are the same.
pub proof fn law_client_key_injective(
    key_a: Seq<u8>,
    rdns_a: Seq<char>,
    key_b: Seq<u8>,
    rdns_b: Seq<char>,
)
    requires
        key_a.len() == key_b.len(),
        client_key_of(key_a, rdns_a) == client_key_of(key_b, rdns_b),
    ensures
        key_a == key_b,
        rdns_a == rdns_b,
{
    let a = client_key_of(key_a, rdns_a);
    let b = client_key_of(key_b, rdns_b);
    let n = key_a.len() as int;
    assert forall|i: int| 0 <= i < n implies key_a[i] == key_b[i] by {
        assert(a[2 * i] == hex(key_a)[2 * i]);
        assert(b[2 * i] == hex(key_b)[2 * i]);
        assert(a[2 * i + 1] == hex(key_a)[2 * i + 1]);
        assert(b[2 * i + 1] == hex(key_b)[2 * i + 1]);
        let x = key_a[i] as int;
        let y = key_b[i] as int;
        assert((2 * i) / 2 == i && (2 * i) % 2 == 0 && (2 * i + 1) / 2 == i && (2 * i + 1) % 2 == 1);
        lemma_hex_digit_injective(x / 16, y / 16);
        lemma_hex_digit_injective(x % 16, y % 16);
    }
    assert(key_a =~= key_b);
    assert(rdns_a =~= a.skip(2 * n + 1));
    assert(rdns_b =~= b.skip(2 * n + 1));
}

/// The canonical form of a host name is what is left of it without the white
/// space around it and the dots behind it, in lower case: nothing else is
/// taken away, and nothing is added.
pub proof fn law_canonical_host_core(
    front: Seq<char>,
    core: Seq<char>,
    dots: Seq<char>,
    back: Seq<char>,
)
    requires
        forall|i: int| 0 <= i < front.len() ==> crate::text::is_white(#[trigger] front[i]),
        forall|i: int| 0 <= i < back.len() ==> crate::text::is_white(#[trigger] back[i]),
        forall|i: int| 0 <= i < dots.len() ==> #[trigger] dots[i] == '.',
        core.len() > 0 ==> !crate::text::is_white(core[0]) && core.last() != '.' && (dots.len() == 0
            ==> !crate::text::is_white(core.last())),
    ensures
        canonical_host(front + (core + dots) + back) == lower(core),
{
    let named = core + dots;
    if named.len() > 0 {
        if dots.len() > 0 {
            assert(named.last() == dots[dots.len() - 1]);
        } else {
            assert(named.last() == core.last());
        }
        if core.len() > 0 {
            assert(named[0] == core[0]);
        } else {
            assert(named[0] == dots[0]);
        }
    }
    crate::text::law_trimmed(front, named, back);
    crate::text::law_run_trimmed(core, dots, '.');
}

/// A client's key text is its public key in hexadecimal, an at sign, and its
/// host name as it was given.
pub proof fn law_client_key_parts(verifying_key: Seq<u8>, rdns: Seq<char>)
    ensures
        ({
            let text = client_key_of(verifying_key, rdns);
            let n = 2 * verifying_key.len() as int;
            &&& text.len() == n + 1 + rdns.len()
            &&& text.take(n) == hex(verifying_key)
            &&& text[n] == '@'
            &&& text.skip(n + 1) == rdns
        }),
{
    let text = client_key_of(verifying_key, rdns);
    let n = 2 * verifying_key.len() as int;
    assert(text.take(n) =~= hex(verifying_key));
    assert(text.skip(n + 1) =~= rdns);
}

} // verus!
