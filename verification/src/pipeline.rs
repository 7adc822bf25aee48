//! The request pipeline: percent-decode, Base65536-decode, frame check,
//! HMAC authentication.
//!
//! A payload is one version byte (must be 0), a 20-byte HMAC-SHA1 tag of
//! the body, and the body. The server recomputes the tag under its own
//! key; the recomputed tag is the request's fingerprint (cache key and
//! pacing key) whether or not verification is bypassed.

use vstd::prelude::*;
use crate::codec::{hmac_sha1, hmac_sha1_of, percent_decode, percent_decoded_of, base65536_decode,
    decode65536_of, to_dec, dec_of};

verus! {

broadcast use vstd::string::group_string_axioms;

/// Why a request was refused.
#[derive(Clone, Copy, PartialEq, Eq, Structural, Debug)]
pub enum Rejection {
    /// The path did not percent-decode to UTF-8 text.
    NotUtf8,
    /// The text was not valid Base65536.
    NotBase65536,
    /// The payload was shorter than the 21-byte frame.
    TooShort,
    /// The version byte was not 0.
    UnknownVersion(u8),
    /// The provided tag did not match the recomputed one.
    BadHmac,
}

impl Rejection {
    /// The HTTP status of the refusal: 401 for a failed authentication,
    /// 400 for every malformed request.
    pub fn status(&self) -> (r: u16)
        ensures
            r == 401 <==> self is BadHmac,
            r == 400 <==> !(self is BadHmac),
    {
        match self {
            Rejection::BadHmac => 401,
            _ => 400,
        }
    }

    /// The human-readable reason sent with the refusal.
    pub fn message(&self) -> (r: String)
        ensures
            self is NotUtf8 ==> r@ == "Failed to UTF-8 parsing"@,
            self is NotBase65536 ==> r@ == "Failed to Base65536 decoding"@,
            self is TooShort ==> r@ == "Minimum length is not satisfied"@,
            (*self) matches Rejection::UnknownVersion(v) ==> r@ == "Unknown protocol v"@
                + dec_of(v),
            self is BadHmac ==> r@ == "Invalid HMAC Key"@,
    {
        match self {
            Rejection::NotUtf8 => String::from_str("Failed to UTF-8 parsing"),
            Rejection::NotBase65536 => String::from_str("Failed to Base65536 decoding"),
            Rejection::TooShort => String::from_str("Minimum length is not satisfied"),
            Rejection::UnknownVersion(v) => {
                let mut s = String::from_str("Unknown protocol v");
                let d = to_dec(*v);
                s.append(d.as_str());
                s
            },
            Rejection::BadHmac => String::from_str("Invalid HMAC Key"),
        }
    }
}

/// An authenticated request: its fingerprint (the recomputed tag) and
/// its protobuf body.
#[derive(Debug)]
pub struct AcceptedRequest {
    pub fingerprint: Vec<u8>,
    pub body: Vec<u8>,
}

/// What classifying a decoded payload yields: the fingerprint and body,
/// or the exact refusal. Refused are: payloads under 21 bytes; a leading
/// version byte other than 0; and, unless verification is bypassed, a
/// provided tag that differs from the tag recomputed under `key`.
pub open spec fn spec_classify(bin: Seq<u8>, key: Seq<u8>, bypass: bool) -> Result<
    (Seq<u8>, Seq<u8>),
    Rejection,
> {
    if bin.len() < 21 {
        Err(Rejection::TooShort)
    } else if bin[0] != 0 {
        Err(Rejection::UnknownVersion(bin[0]))
    } else {
        let provided = bin.subrange(1, 21);
        let body = bin.skip(21);
        let tag = hmac_sha1_of(key, body);
        if !bypass && tag != provided {
            Err(Rejection::BadHmac)
        } else {
            Ok((tag, body))
        }
    }
}

/// What handling a request path yields, composing the decodings with
/// the frame classification.
pub open spec fn spec_handle_path(path: Seq<char>, key: Seq<u8>, bypass: bool) -> Result<
    (Seq<u8>, Seq<u8>),
    Rejection,
> {
    match percent_decoded_of(path) {
        None => Err(Rejection::NotUtf8),
        Some(text) => match decode65536_of(text) {
            None => Err(Rejection::NotBase65536),
            Some(bin) => spec_classify(bin, key, bypass),
        },
    }
}

/// Splits and authenticates a decoded payload.
pub fn classify_payload(bin: &Vec<u8>, key: &Vec<u8>, bypass: bool) -> (r: Result<
    AcceptedRequest,
    Rejection,
>)
    ensures
        match r {
            Ok(a) => spec_classify(bin@, key@, bypass) == Ok::<_, Rejection>(
                (a.fingerprint@, a.body@),
            ),
            Err(e) => spec_classify(bin@, key@, bypass) == Err::<(Seq<u8>, Seq<u8>), _>(e),
        },
{
    if bin.len() < 21 {
        return Err(Rejection::TooShort);
    }
    let version = bin[0];
    if version != 0 {
        return Err(Rejection::UnknownVersion(version));
    }
    let mut provided: Vec<u8> = Vec::new();
    let mut i: usize = 1;
    while i < 21
        invariant
            bin@.len() >= 21,
            1 <= i <= 21,
            provided@ =~= bin@.subrange(1, i as int),
        decreases 21 - i,
    {
        provided.push(bin[i]);
        i += 1;
    }
    let mut body: Vec<u8> = Vec::new();
    let mut j: usize = 21;
    while j < bin.len()
        invariant
            bin@.len() >= 21,
            21 <= j <= bin@.len(),
            body@ =~= bin@.subrange(21, j as int),
        decreases bin@.len() - j,
    {
        body.push(bin[j]);
        j += 1;
    }
    proof {
        assert(provided@ =~= bin@.subrange(1, 21));
        assert(body@ =~= bin@.skip(21));
    }
    let tag = hmac_sha1(key, &body);
    if !bypass && !crate::limiter::vecs_u8_equal(&tag, &provided) {
        return Err(Rejection::BadHmac);
    }
    proof {
        if !bypass {
            assert(tag@ == provided@);
        }
    }
    Ok(AcceptedRequest { fingerprint: tag, body })
}

/// Decodes and authenticates a request path (without its leading `/`).
pub fn handle_path(path: &str, key: &Vec<u8>, bypass: bool) -> (r: Result<
    AcceptedRequest,
    Rejection,
>)
    ensures
        match r {
            Ok(a) => spec_handle_path(path@, key@, bypass) == Ok::<_, Rejection>(
                (a.fingerprint@, a.body@),
            ),
            Err(e) => spec_handle_path(path@, key@, bypass) == Err::<(Seq<u8>, Seq<u8>), _>(e),
        },
{
    let text = match percent_decode(path) {
        Some(t) => t,
        None => {
            return Err(Rejection::NotUtf8);
        },
    };
    let bin = match base65536_decode(text.as_str()) {
        Some(b) => b,
        None => {
            return Err(Rejection::NotBase65536);
        },
    };
    classify_payload(&bin, key, bypass)
}

/// Frames a body for sending: the version byte 0, the body's HMAC-SHA1
/// tag under `key`, then the body.
pub fn build_payload(key: &Vec<u8>, body: &Vec<u8>) -> (r: Vec<u8>)
    ensures
        r@ == seq![0u8] + hmac_sha1_of(key@, body@) + body@,
        r@.len() == 21 + body@.len(),
{
    let tag = hmac_sha1(key, body);
    let mut out: Vec<u8> = Vec::new();
    out.push(0);
    let mut i: usize = 0;
    while i < tag.len()
        invariant
            tag@.len() == 20,
            i <= 20,
            out@ =~= seq![0u8] + tag@.subrange(0, i as int),
        decreases tag@.len() - i,
    {
        out.push(tag[i]);
        i += 1;
    }
    let mut j: usize = 0;
    while j < body.len()
        invariant
            tag@.len() == 20,
            j <= body@.len(),
            out@ =~= seq![0u8] + tag@ + body@.subrange(0, j as int),
        decreases body@.len() - j,
    {
        out.push(body[j]);
        j += 1;
    }
    proof {
        assert(out@ =~= seq![0u8] + tag@ + body@);
    }
    out
}

/// Round trip: a body framed with its tag under the server's key, then
/// Base65536- and percent-encoded, is accepted by the handler, which
/// recovers exactly the body and the tag it was signed with.
pub proof fn lemma_request_round_trip(
    key: Seq<u8>,
    body: Seq<u8>,
    tag: Seq<u8>,
    encoded: Seq<char>,
    path: Seq<char>,
)
    requires
        tag == hmac_sha1_of(key, body),
        tag.len() == 20,
        percent_decoded_of(path) == Some(encoded),
        decode65536_of(encoded) == Some(seq![0u8] + tag + body),
    ensures
        spec_handle_path(path, key, false) == Ok::<_, Rejection>((tag, body)),
{
    let payload = seq![0u8] + tag + body;
    assert(payload.len() == 21 + body.len());
    assert(payload[0] == 0);
    assert(payload.subrange(1, 21) =~= tag);
    assert(payload.skip(21) =~= body);
}

/// Builds the request path for a body: frame it with its tag under
/// `key`, Base65536-encode, then percent-encode. Handling the returned
/// path under the same key recovers exactly the body (the round trip).
pub fn encode_request_path(key: &Vec<u8>, body: &Vec<u8>) -> (r: String)
    ensures
        spec_handle_path(r@, key@, false) == Ok::<_, Rejection>(
            (hmac_sha1_of(key@, body@), body@),
        ),
{
    let payload = build_payload(key, body);
    let encoded = crate::codec::base65536_encode(&payload);
    let path = crate::codec::percent_encode(encoded.as_str());
    proof {
        lemma_request_round_trip(
            key@,
            body@,
            hmac_sha1_of(key@, body@),
            encoded@,
            path@,
        );
    }
    path
}

} // verus!
