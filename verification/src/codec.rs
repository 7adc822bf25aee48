//! Byte-level codecs of the request path.
//!
//! The outside calls (HMAC, Base65536, percent-coding) stand behind
//! trusted wrappers whose results carry spec-level names; hexadecimal
//! and decimal rendering are verified here.

use vstd::prelude::*;
use hmac::Mac;

verus! {

broadcast use vstd::string::group_string_axioms;

/// The HMAC-SHA1 tag of `msg` under `key`: a pure function of both.
pub uninterp spec fn hmac_sha1_of(key: Seq<u8>, msg: Seq<u8>) -> Seq<u8>;

/// Relies on `hmac::Hmac<sha1::Sha1>`: the tag depends on key and
/// message alone, and SHA-1's output is 20 bytes. HMAC accepts keys of
/// any length, so constructing the MAC never fails.
#[verifier::external_body]
pub(crate) fn hmac_sha1(key: &Vec<u8>, msg: &Vec<u8>) -> (r: Vec<u8>)
    ensures
        r@ == hmac_sha1_of(key@, msg@),
        r@.len() == 20,
{
    let mut mac = <hmac::Hmac<sha1::Sha1> as hmac::KeyInit>::new_from_slice(
        key.as_slice(),
    ).unwrap();
    mac.update(msg.as_slice());
    mac.finalize().into_bytes().to_vec()
}

/// The HMAC-SHA256 tag of `msg` under `key`: a pure function of both.
pub uninterp spec fn hmac_sha256_of(key: Seq<u8>, msg: Seq<u8>) -> Seq<u8>;

/// Relies on `hmac::Hmac<sha2::Sha256>`: the tag depends on key and
/// message alone, and SHA-256's output is 32 bytes.
#[verifier::external_body]
pub(crate) fn hmac_sha256(key: &Vec<u8>, msg: &Vec<u8>) -> (r: Vec<u8>)
    ensures
        r@ == hmac_sha256_of(key@, msg@),
        r@.len() == 32,
{
    let mut mac = <hmac::Hmac<sha2::Sha256> as hmac::KeyInit>::new_from_slice(
        key.as_slice(),
    ).unwrap();
    mac.update(msg.as_slice());
    mac.finalize().into_bytes().to_vec()
}

/// What percent-decoding a path component yields, when it yields UTF-8.
pub uninterp spec fn percent_decoded_of(s: Seq<char>) -> Option<Seq<char>>;

/// Relies on `urlencoding::decode`: the result depends on the input
/// characters alone; a non-UTF-8 byte sequence is an error.
#[verifier::external_body]
pub(crate) fn percent_decode(s: &str) -> (r: Option<String>)
    ensures
        r is Some <==> percent_decoded_of(s@) is Some,
        r is Some ==> r->0@ == percent_decoded_of(s@)->0,
{
    match urlencoding::decode(s) {
        Ok(cow) => Some(cow.into_owned()),
        Err(_) => None,
    }
}

/// Relies on `urlencoding::encode`: it escapes exactly the bytes that
/// `urlencoding::decode` unescapes, so decoding gives the input back.
#[verifier::external_body]
pub(crate) fn percent_encode(s: &str) -> (r: String)
    ensures
        percent_decoded_of(r@) == Some(s@),
{
    urlencoding::encode(s).into_owned()
}

/// What Base65536-decoding yields, when the text is a valid encoding.
pub uninterp spec fn decode65536_of(s: Seq<char>) -> Option<Seq<u8>>;

/// Relies on `base65536::decode` (strict mode, no garbage ignored): the
/// result depends on the input characters alone.
#[verifier::external_body]
pub(crate) fn base65536_decode(s: &str) -> (r: Option<Vec<u8>>)
    ensures
        r is Some <==> decode65536_of(s@) is Some,
        r is Some ==> r->0@ == decode65536_of(s@)->0,
{
    match base65536::decode(s, false) {
        Ok(v) => Some(v),
        Err(_) => None,
    }
}

/// Relies on `base65536::encode` (no wrapping): each output code point
/// carries one or two input bytes in the block tables that
/// `base65536::decode` reads back, so strict decoding inverts it.
#[verifier::external_body]
pub(crate) fn base65536_encode(b: &Vec<u8>) -> (r: String)
    ensures
        decode65536_of(r@) == Some(b@),
{
    base65536::encode(b.as_slice(), None)
}

/// The lower-case hexadecimal digit of a nibble.
pub open spec fn spec_hex_digit(n: u8) -> char {
    if n == 0 {
        '0'
    } else if n == 1 {
        '1'
    } else if n == 2 {
        '2'
    } else if n == 3 {
        '3'
    } else if n == 4 {
        '4'
    } else if n == 5 {
        '5'
    } else if n == 6 {
        '6'
    } else if n == 7 {
        '7'
    } else if n == 8 {
        '8'
    } else if n == 9 {
        '9'
    } else if n == 10 {
        'a'
    } else if n == 11 {
        'b'
    } else if n == 12 {
        'c'
    } else if n == 13 {
        'd'
    } else if n == 14 {
        'e'
    } else {
        'f'
    }
}

/// The lower-case hexadecimal rendering of a byte string, two digits a
/// byte, high nibble first.
pub open spec fn hex_of(bytes: Seq<u8>) -> Seq<char>
    decreases bytes.len(),
{
    if bytes.len() == 0 {
        Seq::empty()
    } else {
        hex_of(bytes.drop_last()) + seq![
            spec_hex_digit(bytes.last() / 16),
            spec_hex_digit(bytes.last() % 16),
        ]
    }
}

/// A one-character string holding the hexadecimal digit of `n`.
fn hex_char_str(n: u8) -> (r: &'static str)
    requires
        n < 16,
    ensures
        r@ =~= seq![spec_hex_digit(n)],
{
    proof {
        reveal_strlit("0");
        reveal_strlit("1");
        reveal_strlit("2");
        reveal_strlit("3");
        reveal_strlit("4");
        reveal_strlit("5");
        reveal_strlit("6");
        reveal_strlit("7");
        reveal_strlit("8");
        reveal_strlit("9");
        reveal_strlit("a");
        reveal_strlit("b");
        reveal_strlit("c");
        reveal_strlit("d");
        reveal_strlit("e");
        reveal_strlit("f");
    }
    if n == 0 {
        "0"
    } else if n == 1 {
        "1"
    } else if n == 2 {
        "2"
    } else if n == 3 {
        "3"
    } else if n == 4 {
        "4"
    } else if n == 5 {
        "5"
    } else if n == 6 {
        "6"
    } else if n == 7 {
        "7"
    } else if n == 8 {
        "8"
    } else if n == 9 {
        "9"
    } else if n == 10 {
        "a"
    } else if n == 11 {
        "b"
    } else if n == 12 {
        "c"
    } else if n == 13 {
        "d"
    } else if n == 14 {
        "e"
    } else {
        "f"
    }
}

/// Renders bytes as lower-case hexadecimal.
pub fn to_hex(bytes: &Vec<u8>) -> (r: String)
    ensures
        r@ == hex_of(bytes@),
{
    let mut out = String::new();
    let mut i: usize = 0;
    while i < bytes.len()
        invariant
            i <= bytes@.len(),
            out@ == hex_of(bytes@.take(i as int)),
        decreases bytes@.len() - i,
    {
        let b = bytes[i];
        let hi = b / 16;
        let lo = b % 16;
        out.append(hex_char_str(hi));
        out.append(hex_char_str(lo));
        proof {
            assert(bytes@.take(i + 1).drop_last() =~= bytes@.take(i as int));
            assert(bytes@.take(i + 1).last() == bytes@[i as int]);
            assert(out@ =~= hex_of(bytes@.take(i + 1)));
        }
        i += 1;
    }
    proof {
        assert(bytes@.take(bytes@.len() as int) =~= bytes@);
    }
    out
}

/// The decimal rendering of a byte value, no leading zeros.
pub open spec fn dec_of(n: u8) -> Seq<char>
    decreases n,
{
    if n < 10 {
        seq![spec_hex_digit(n)]
    } else {
        dec_of(n / 10) + seq![spec_hex_digit(n % 10)]
    }
}

/// Renders a byte value in decimal.
pub fn to_dec(n: u8) -> (r: String)
    ensures
        r@ == dec_of(n),
{
    let mut out = String::new();
    if n >= 100 {
        out.append(hex_char_str(n / 100));
    }
    if n >= 10 {
        out.append(hex_char_str((n / 10) % 10));
    }
    out.append(hex_char_str(n % 10));
    proof {
        if n < 10 {
            assert(out@ =~= dec_of(n));
        } else if n < 100 {
            assert(n / 10 < 10);
            assert(dec_of(n) == dec_of(n / 10) + seq![spec_hex_digit(n % 10)]);
            assert(out@ =~= dec_of(n));
        } else {
            assert(n / 10 >= 10);
            assert(dec_of(n) == dec_of(n / 10) + seq![spec_hex_digit(n % 10)]);
            assert(dec_of(n / 10) == dec_of(n / 10 / 10) + seq![spec_hex_digit((n / 10) % 10)]);
            assert(n / 10 / 10 == n / 100);
            assert(n / 100 < 10);
            assert(out@ =~= dec_of(n));
        }
    }
    out
}

/// The request's log tag: the first six hexadecimal digits of its
/// fingerprint, then `#`, then the two chosen name words joined by `-`.
pub open spec fn identity_of(fp: Seq<u8>, left: Seq<char>, right: Seq<char>) -> Seq<char> {
    hex_of(fp).take(6) + seq!['#'] + left + seq!['-'] + right
}

/// Builds the request's log tag from its fingerprint and two name words
/// (the words are drawn at random by the caller).
pub fn request_identity_tag(fp: &Vec<u8>, left: &str, right: &str) -> (r: String)
    requires
        fp@.len() >= 3,
    ensures
        r@ == identity_of(fp@, left@, right@),
{
    let mut head: Vec<u8> = Vec::new();
    head.push(fp[0]);
    head.push(fp[1]);
    head.push(fp[2]);
    let mut out = to_hex(&head);
    proof {
        reveal_strlit("#");
        reveal_strlit("-");
        lemma_hex_prefix(fp@, 3);
        assert(head@ =~= fp@.take(3));
        assert(hex_of(head@) =~= hex_of(fp@).take(6));
    }
    out.append("#");
    out.append(left);
    out.append("-");
    out.append(right);
    proof {
        assert(out@ =~= identity_of(fp@, left@, right@));
    }
    out
}

/// Hex rendering of a prefix is a prefix of the hex rendering.
proof fn lemma_hex_prefix(bytes: Seq<u8>, k: int)
    requires
        0 <= k <= bytes.len(),
    ensures
        hex_of(bytes.take(k)) == hex_of(bytes).take(2 * k),
        hex_of(bytes).len() == 2 * bytes.len(),
    decreases bytes.len(),
{
    if bytes.len() == 0 {
        assert(bytes.take(k) =~= bytes);
        assert(hex_of(bytes).take(2 * k) =~= hex_of(bytes));
    } else {
        lemma_hex_prefix(bytes.drop_last(), if k <= bytes.len() - 1 {
            k
        } else {
            bytes.len() - 1
        });
        if k == bytes.len() {
            assert(bytes.take(k) =~= bytes);
            assert(hex_of(bytes).take(2 * k) =~= hex_of(bytes));
        } else {
            assert(bytes.take(k) =~= bytes.drop_last().take(k));
            assert(hex_of(bytes).take(2 * k) =~= hex_of(bytes.drop_last()).take(2 * k));
        }
    }
}

} // verus!
