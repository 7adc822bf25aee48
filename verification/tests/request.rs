use eew_renderer::pipeline::{build_payload, classify_payload, encode_request_path, handle_path,
    Rejection};
use eew_renderer::proto::{decode_quake_prefecture, Epicenter};
use eew_renderer::codec::{request_identity_tag, to_hex, to_dec};

#[test]
fn round_trip_recovers_the_body() {
    // Frame, sign, Base65536-encode, percent-encode; then handle the
    // path: the original body and its tag come back.
    let key = b"development key".to_vec();
    let body = vec![8u8, 200, 1, 26, 4, 10, 2, 101, 3];
    let path = encode_request_path(&key, &body);
    let accepted = handle_path(path.as_str(), &key, false).unwrap();
    assert_eq!(accepted.body, body);
    assert_eq!(accepted.fingerprint.len(), 20);
    let payload = build_payload(&key, &body);
    assert_eq!(&payload[1..21], accepted.fingerprint.as_slice());
}

#[test]
fn empty_body_payload_is_accepted_and_decodes_to_defaults() {
    // A 21-byte payload (empty body) passes the frame and HMAC checks
    // and decodes to the all-default message.
    let key = b"k".to_vec();
    let body: Vec<u8> = vec![];
    let payload = build_payload(&key, &body);
    assert_eq!(payload.len(), 21);
    let accepted = classify_payload(&payload, &key, false).unwrap();
    assert_eq!(accepted.body.len(), 0);
    let decoded = decode_quake_prefecture(&accepted.body).unwrap();
    assert_eq!(decoded.time, 0);
    assert!(decoded.epicenter.is_none());
    assert_eq!(decoded.intensities.len(), 9);
    for level in &decoded.intensities {
        assert!(level.is_empty());
    }
}

#[test]
fn zero_tag_accepted_only_under_bypass() {
    // A payload with an all-zero tag: accepted when verification is
    // bypassed, refused as a bad HMAC otherwise.
    let mut payload = vec![0u8; 21];
    let key = b"server key".to_vec();
    let accepted = classify_payload(&payload, &key, true).unwrap();
    assert!(accepted.body.is_empty());
    let refused = classify_payload(&payload, &key, false).unwrap_err();
    assert!(matches!(refused, Rejection::BadHmac));
    assert_eq!(refused.status(), 401);
    assert_eq!(refused.message(), "Invalid HMAC Key");
    // With an empty development key the all-zero tag is still wrong:
    // the tag must be the recomputed one, whatever the key.
    payload[0] = 0;
    let empty_key: Vec<u8> = vec![];
    let tagged = build_payload(&empty_key, &vec![]);
    assert!(classify_payload(&tagged, &empty_key, false).is_ok());
}

#[test]
fn malformed_paths_and_frames_are_refused_exactly() {
    let key = b"k".to_vec();
    // An emoji percent-decodes but is not Base65536.
    let e = handle_path("%F0%9F%92%A9", &key, false).unwrap_err();
    assert!(matches!(e, Rejection::NotBase65536));
    assert_eq!(e.status(), 400);
    assert_eq!(e.message(), "Failed to Base65536 decoding");
    // A stray percent escape of an invalid UTF-8 byte fails earlier.
    let e = handle_path("%FF", &key, false).unwrap_err();
    assert!(matches!(e, Rejection::NotUtf8));
    assert_eq!(e.message(), "Failed to UTF-8 parsing");
    // A short payload.
    let e = classify_payload(&vec![0u8; 20], &key, false).unwrap_err();
    assert!(matches!(e, Rejection::TooShort));
    assert_eq!(e.message(), "Minimum length is not satisfied");
    // A wrong version byte.
    let mut p = vec![0u8; 22];
    p[0] = 7;
    let e = classify_payload(&p, &key, true).unwrap_err();
    assert!(matches!(e, Rejection::UnknownVersion(7)));
    assert_eq!(e.status(), 400);
    assert_eq!(e.message(), "Unknown protocol v7");
}

#[test]
fn protobuf_fields_decode() {
    // time 1700000000 (field 1), epicenter lat 375 lon 1372 (field 2,
    // zigzag), intensity level seven (field 11) with codes [390].
    let mut body: Vec<u8> = vec![];
    body.push(0x08); // field 1, varint
    let mut t = 1700000000u64;
    while t >= 0x80 {
        body.push((t as u8 & 0x7f) | 0x80);
        t >>= 7;
    }
    body.push(t as u8);
    // epicenter submessage: field 1 zigzag(375)=750, field 2 zigzag(1372)=2744
    let sub = vec![0x08, 0xee, 0x05, 0x10, 0xb8, 0x15];
    body.push(0x12); // field 2, length-delimited
    body.push(sub.len() as u8);
    body.extend_from_slice(&sub);
    // field 11 (tag 11<<3|2 = 90): codes submessage, field 1 varint 390
    let codes = vec![0x08, 0x86, 0x03];
    body.push(0x5a);
    body.push(codes.len() as u8);
    body.extend_from_slice(&codes);

    let decoded = decode_quake_prefecture(&body).unwrap();
    assert_eq!(decoded.time, 1700000000);
    assert_eq!(
        decoded.epicenter,
        Some(Epicenter { lat_x10: 375, lon_x10: 1372 })
    );
    assert_eq!(decoded.intensities[8], vec![390]);
    for i in 0..8 {
        assert!(decoded.intensities[i].is_empty());
    }

    // A packed list appends every value; negative zigzag decodes too.
    let body2 = vec![
        0x1a, 0x04, 0x0a, 0x02, 0x65, 0x03, // field 3: packed codes [101, 3]
        0x12, 0x02, 0x08, 0x01, // epicenter lat zigzag(1) = -1
    ];
    let decoded2 = decode_quake_prefecture(&body2).unwrap();
    assert_eq!(decoded2.intensities[0], vec![101, 3]);
    assert_eq!(
        decoded2.epicenter,
        Some(Epicenter { lat_x10: -1, lon_x10: 0 })
    );

    // A truncated buffer is malformed.
    assert!(decode_quake_prefecture(&vec![0x12, 0x05, 0x08]).is_none());
    // A reserved wire type is malformed.
    assert!(decode_quake_prefecture(&vec![0x0b]).is_none());
}

#[test]
fn identity_tag_has_hash_prefix_and_words() {
    let fp = vec![0xabu8, 0xcd, 0xef, 0x01, 0x02];
    let tag = request_identity_tag(&fp, "brave", "heron");
    assert_eq!(tag, "abcdef#brave-heron");
}

#[test]
fn hex_and_decimal_render_exactly() {
    assert_eq!(to_hex(&vec![0x00u8, 0xff, 0x1a]), "00ff1a");
    assert_eq!(to_hex(&vec![]), "");
    assert_eq!(to_dec(0), "0");
    assert_eq!(to_dec(42), "42");
    assert_eq!(to_dec(255), "255");
}
