//! Framing of the messages that travel as datagrams.
//!
//! The limit here is no policy: a UDP datagram over IPv4 cannot carry more.
//! Refusing what claims to be longer costs nothing and keeps decoding from
//! allocating for it. A sender of many messages is the business of
//! [`crate::rate_limit`].
//!
//! How a message becomes bytes, and bytes a message, is handed in.

use vstd::prelude::*;
use crate::text::{decimal, decimal_text};

verus! {

/// The largest payload of a UDP datagram over IPv4: 65,535 bytes less the
/// headers of IP and UDP.
pub const MAX_DATAGRAM_BYTES: usize = 65_507;

/// `serde_json::Error`, the error of the JSON codec. Nothing is known of a
/// value.
#[verifier::external_type_specification]
#[verifier::external_body]
pub struct ExJsonError(serde_json::Error);

/// Why a message could not be sent or understood.
#[derive(Debug)]
pub enum WireError {
    /// The message could not be made into bytes.
    Encode(serde_json::Error),
    /// The bytes are no such message.
    Decode(serde_json::Error),
    /// The bytes do not fit in a datagram.
    TooLarge { actual: usize, max: usize },
}

/// `Display` of `serde_json::Error`: some text for people. Nothing is said of
/// it.
#[verifier::external_body]
fn error_text(e: &serde_json::Error) -> (r: String) {
    e.to_string()
}

/// Whether `text` is what the codec may have to say of an error.
pub closed spec fn codec_says(e: serde_json::Error, text: Seq<char>) -> bool {
    exists|r: String| #[trigger] call_ensures(error_text, (&e,), r) && r@ == text
}

impl WireError {
    /// Whether `text` is the message for people. What the codec has to say
    /// stands at its end.
    pub open spec fn reads(self, text: Seq<char>) -> bool {
        match self {
            WireError::Encode(e) => exists|cause: Seq<char>| #[trigger]
                codec_says(e, cause) && text == "failed to serialize message: "@ + cause,
            WireError::Decode(e) => exists|cause: Seq<char>| #[trigger]
                codec_says(e, cause) && text == "failed to deserialize message: "@ + cause,
            WireError::TooLarge { actual, max } => text == "encoded message of "@ + decimal(
                actual as nat,
            ) + " bytes exceeds the "@ + decimal(max as nat) + " byte limit"@,
        }
    }

    /// The message for people. What the codec has to say stands at its end.
    pub fn to_string(&self) -> (r: String)
        ensures
            self.reads(r@),
    {
        match self {
            WireError::Encode(e) => {
                let mut out = "failed to serialize message: ".to_owned();
                let cause = error_text(e);
                assert(call_ensures(error_text, (e,), cause));
                assert(codec_says(*e, cause@));
                out.append(cause.as_str());
                out
            },
            WireError::Decode(e) => {
                let mut out = "failed to deserialize message: ".to_owned();
                let cause = error_text(e);
                assert(call_ensures(error_text, (e,), cause));
                assert(codec_says(*e, cause@));
                out.append(cause.as_str());
                out
            },
            WireError::TooLarge { actual, max } => {
                let mut out = "encoded message of ".to_owned();
                out.append(decimal_text(*actual as u64).as_str());
                out.append(" bytes exceeds the ");
                out.append(decimal_text(*max as u64).as_str());
                out.append(" byte limit");
                out
            },
        }
    }
}

// ---------------------------------------------------------------------
// Encoding and decoding
// ---------------------------------------------------------------------

/// What may come of encoding a message with a given writer: its bytes where
/// they fit in a datagram, and how many there are where they do not.
pub open spec fn encode_outcome<T, F: FnOnce(&T) -> Result<Vec<u8>, serde_json::Error>>(
    message: &T,
    to_bytes: F,
    r: Result<Vec<u8>, WireError>,
) -> bool {
    match r {
        Ok(bytes) => call_ensures(to_bytes, (message,), Ok(bytes)) && bytes@.len()
            <= MAX_DATAGRAM_BYTES,
        Err(WireError::TooLarge { actual, max }) => exists|bytes: Vec<u8>| #[trigger]
            call_ensures(to_bytes, (message,), Ok(bytes)) && actual == bytes@.len() && actual > max
                && max == MAX_DATAGRAM_BYTES,
        Err(WireError::Encode(e)) => call_ensures(to_bytes, (message,), Err(e)),
        Err(WireError::Decode(_)) => false,
    }
}

/// What may come of decoding bytes with a given reader. Bytes that do not fit
/// in a datagram are refused whatever they are.
pub open spec fn decode_outcome<T, F: FnOnce(&[u8]) -> Result<T, serde_json::Error>>(
    bytes: &[u8],
    from_bytes: F,
    r: Result<T, WireError>,
) -> bool {
    if bytes@.len() > MAX_DATAGRAM_BYTES {
        r matches Err(WireError::TooLarge { actual, max }) && actual == bytes@.len() && max
            == MAX_DATAGRAM_BYTES
    } else {
        match r {
            Ok(message) => call_ensures(from_bytes, (bytes,), Ok(message)),
            Err(WireError::Decode(e)) => call_ensures(from_bytes, (bytes,), Err(e)),
            Err(_) => false,
        }
    }
}

/// Encodes a message, and refuses what does not fit in a datagram.
pub fn encode<T, F: FnOnce(&T) -> Result<Vec<u8>, serde_json::Error>>(message: &T, to_bytes: F) -> (r:
    Result<Vec<u8>, WireError>)
    requires
        call_requires(to_bytes, (message,)),
    ensures
        encode_outcome(message, to_bytes, r),
{
    match to_bytes(message) {
        Ok(bytes) => {
            let actual: usize = bytes.len();
            if actual > MAX_DATAGRAM_BYTES {
                Err(WireError::TooLarge { actual, max: MAX_DATAGRAM_BYTES })
            } else {
                Ok(bytes)
            }
        },
        Err(e) => Err(WireError::Encode(e)),
    }
}

/// Decodes a message. What cannot have come in a datagram is refused before
/// it is looked at.
pub fn decode<T, F: FnOnce(&[u8]) -> Result<T, serde_json::Error>>(bytes: &[u8], from_bytes: F) -> (r:
    Result<T, WireError>)
    requires
        bytes@.len() <= MAX_DATAGRAM_BYTES ==> call_requires(from_bytes, (bytes,)),
    ensures
        decode_outcome(bytes, from_bytes, r),
{
    if bytes.len() > MAX_DATAGRAM_BYTES {
        return Err(WireError::TooLarge { actual: bytes.len(), max: MAX_DATAGRAM_BYTES });
    }
    match from_bytes(bytes) {
        Ok(message) => Ok(message),
        Err(e) => Err(WireError::Decode(e)),
    }
}

// ---------------------------------------------------------------------
// Laws
// ---------------------------------------------------------------------

/// Whether a reader inverts a writer: it makes of the written bytes the
/// message that they were written for, up to what counts as the same message.
pub open spec fn inverts<
    T,
    F: FnOnce(&T) -> Result<Vec<u8>, serde_json::Error>,
    G: FnOnce(&[u8]) -> Result<T, serde_json::Error>,
>(to_bytes: F, from_bytes: G, same: spec_fn(T, T) -> bool) -> bool {
    forall|message: &T, written: Vec<u8>, bytes: &[u8], read: Result<T, serde_json::Error>|
        #[trigger] call_ensures(to_bytes, (message,), Ok(written)) && #[trigger] call_ensures(
            from_bytes,
            (bytes,),
            read,
        ) && bytes@ == written@ ==> (read matches Ok(back) && same(*message, back))
}

/// What was encoded fits in a datagram, and decoding it gives the message
/// back, if the reader inverts the writer.
pub proof fn law_encoded_decodes<
    T,
    F: FnOnce(&T) -> Result<Vec<u8>, serde_json::Error>,
    G: FnOnce(&[u8]) -> Result<T, serde_json::Error>,
>(
    message: &T,
    to_bytes: F,
    encoded: Vec<u8>,
    bytes: &[u8],
    from_bytes: G,
    decoded: Result<T, WireError>,
    same: spec_fn(T, T) -> bool,
)
    requires
        inverts(to_bytes, from_bytes, same),
        encode_outcome(message, to_bytes, Ok(encoded)),
        bytes@ == encoded@,
        decode_outcome(bytes, from_bytes, decoded),
    ensures
        bytes@.len() <= MAX_DATAGRAM_BYTES,
        decoded matches Ok(back) && same(*message, back),
{
    assert(call_ensures(to_bytes, (message,), Ok(encoded)));
    match decoded {
        Ok(back) => {
            assert(call_ensures(from_bytes, (bytes,), Ok(back)));
        },
        Err(WireError::Decode(e)) => {
            assert(call_ensures(from_bytes, (bytes,), Err(e)));
        },
        Err(_) => {},
    }
}

/// What does not fit in a datagram is refused, with its size and the limit,
/// and nothing else is refused for its size: neither in encoding nor in
/// decoding.
pub proof fn law_refused_for_size_exactly<
    T,
    F: FnOnce(&T) -> Result<Vec<u8>, serde_json::Error>,
    G: FnOnce(&[u8]) -> Result<T, serde_json::Error>,
>(
    message: &T,
    to_bytes: F,
    encoded: Result<Vec<u8>, WireError>,
    bytes: &[u8],
    from_bytes: G,
    decoded: Result<T, WireError>,
)
    requires
        encode_outcome(message, to_bytes, encoded),
        decode_outcome(bytes, from_bytes, decoded),
    ensures
        encoded matches Ok(written) ==> written@.len() <= 65_507 && call_ensures(
            to_bytes,
            (message,),
            Ok(written),
        ),
        encoded matches Err(WireError::TooLarge { actual, max }) ==> actual > 65_507 && max
            == 65_507 && exists|written: Vec<u8>| #[trigger]
            call_ensures(to_bytes, (message,), Ok(written)) && written@.len() == actual,
        encoded matches Err(WireError::Encode(e)) ==> call_ensures(to_bytes, (message,), Err(e)),
        !(encoded matches Err(WireError::Decode(_))),
        bytes@.len() > 65_507 <==> (decoded matches Err(WireError::TooLarge { actual, max })
            && actual == bytes@.len() && max == 65_507),
        decoded matches Ok(read) ==> call_ensures(from_bytes, (bytes,), Ok(read)),
        decoded matches Err(WireError::Decode(e)) ==> call_ensures(from_bytes, (bytes,), Err(e)),
        !(decoded matches Err(WireError::Encode(_))),
{
}

} // verus!
