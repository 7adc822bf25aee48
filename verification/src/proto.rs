//! The wire format of the request body.
//!
//! The body is a protocol-buffers message. `QuakePrefectureData` carries
//! the occurrence time (field 1, varint seconds), an optional epicenter
//! (field 2, a nested message of two zigzag-coded decidegree values),
//! and one nested `IntensityCodes` message per intensity level (fields
//! 3 through 11, each a list of area codes, packed or repeated).
//! Unknown fields are skipped by wire type; a malformed buffer (a
//! truncated value, a length past the end, a reserved wire type, an
//! oversized varint) is rejected. An empty body is the message with
//! every field at its default.

use vstd::prelude::*;

verus! {

/// The number of intensity levels carried by the message.
pub const INTENSITY_LEVELS: usize = 9;

/// Parses one base-128 varint: its mathematical value and the number of
/// bytes it spans. Each byte carries seven low bits; a set high bit
/// continues the number.
pub open spec fn spec_varint(b: Seq<u8>) -> Option<(nat, int)>
    decreases b.len(),
{
    if b.len() == 0 {
        None
    } else if b[0] < 128 {
        Some((b[0] as nat, 1))
    } else {
        match spec_varint(b.skip(1)) {
            None => None,
            Some((v, c)) => Some((((b[0] - 128) as nat + 128 * v) as nat, c + 1)),
        }
    }
}

/// A parsed varint spans at least one byte and at most the buffer.
pub proof fn lemma_varint_bounds(b: Seq<u8>)
    ensures
        spec_varint(b) matches Some((v, c)) ==> 1 <= c <= b.len(),
    decreases b.len(),
{
    if b.len() == 0 {
    } else if b[0] < 128 {
    } else {
        lemma_varint_bounds(b.skip(1));
    }
}

/// Zigzag decoding of a 32-bit value: even values are non-negative,
/// odd values negative.
pub open spec fn spec_zigzag(m: u32) -> i32 {
    if m % 2 == 0 {
        (m / 2) as i32
    } else {
        (-((m / 2) as int) - 1) as i32
    }
}

fn zigzag_decode(m: u32) -> (r: i32)
    ensures
        r == spec_zigzag(m),
{
    if m % 2 == 0 {
        (m / 2) as i32
    } else {
        -((m / 2) as i32) - 1
    }
}

/// The epicenter in signed decidegrees.
#[derive(Clone, Copy, PartialEq, Eq, Structural, Debug)]
pub struct Epicenter {
    pub lat_x10: i32,
    pub lon_x10: i32,
}

/// The decoded request body.
#[derive(Debug)]
pub struct QuakePrefectureData {
    pub time: u32,
    pub epicenter: Option<Epicenter>,
    /// Area codes per intensity level, weakest first.
    pub intensities: Vec<Vec<u32>>,
}

/// Ghost mirror of the decoded body.
pub struct QpdModel {
    pub time: u32,
    pub epicenter: Option<Epicenter>,
    pub intensities: Seq<Seq<u32>>,
}

impl QuakePrefectureData {
    pub open spec fn view(self) -> QpdModel {
        QpdModel {
            time: self.time,
            epicenter: self.epicenter,
            intensities: self.intensities@.map_values(|v: Vec<u32>| v@),
        }
    }
}

/// The all-defaults message: time 0, no epicenter, no codes anywhere.
pub open spec fn spec_qpd_default() -> QpdModel {
    QpdModel {
        time: 0,
        epicenter: None,
        intensities: Seq::new(INTENSITY_LEVELS as nat, |i: int| Seq::<u32>::empty()),
    }
}

/// Folds the fields of an `IntensityCodes` buffer into the code list:
/// field 1 appends, a packed field 1 appends every packed value,
/// anything else is skipped.
pub open spec fn spec_codes_fields(b: Seq<u8>, acc: Seq<u32>) -> Option<Seq<u32>>
    decreases b.len(), 1int,
    via spec_codes_fields_dec
{
    if b.len() == 0 {
        Some(acc)
    } else {
        match spec_varint(b) {
            None => None,
            Some((tagv, c)) => {
                if tagv > u32::MAX || tagv / 8 == 0 {
                    None
                } else {
                    let field = tagv / 8;
                    let wire = tagv % 8;
                    let rest = b.skip(c);
                    if wire == 0 {
                        match spec_varint(rest) {
                            None => None,
                            Some((v, c2)) => if v > u64::MAX {
                                None
                            } else if field == 1 {
                                spec_codes_fields(
                                    rest.skip(c2),
                                    acc.push((v % 0x1_0000_0000) as u32),
                                )
                            } else {
                                spec_codes_fields(rest.skip(c2), acc)
                            },
                        }
                    } else if wire == 2 {
                        match spec_varint(rest) {
                            None => None,
                            Some((l, c2)) => if l > rest.len() - c2 {
                                None
                            } else if field == 1 {
                                match spec_packed_u32s(
                                    rest.skip(c2).take(l as int),
                                    acc,
                                ) {
                                    None => None,
                                    Some(acc2) => spec_codes_fields(
                                        rest.skip(c2 + l),
                                        acc2,
                                    ),
                                }
                            } else {
                                spec_codes_fields(rest.skip(c2 + l), acc)
                            },
                        }
                    } else if wire == 5 {
                        if rest.len() < 4 {
                            None
                        } else {
                            spec_codes_fields(rest.skip(4), acc)
                        }
                    } else if wire == 1 {
                        if rest.len() < 8 {
                            None
                        } else {
                            spec_codes_fields(rest.skip(8), acc)
                        }
                    } else {
                        None
                    }
                }
            },
        }
    }
}

/// Reads back-to-back varints until the buffer is exhausted.
pub open spec fn spec_packed_u32s(b: Seq<u8>, acc: Seq<u32>) -> Option<Seq<u32>>
    decreases b.len(), 0int,
    via spec_packed_u32s_dec
{
    if b.len() == 0 {
        Some(acc)
    } else {
        match spec_varint(b) {
            None => None,
            Some((v, c)) => if v > u64::MAX {
                None
            } else {
                spec_packed_u32s(b.skip(c), acc.push((v % 0x1_0000_0000) as u32))
            },
        }
    }
}

/// Folds the fields of an `Epicenter` buffer: field 1 is the latitude,
/// field 2 the longitude, both zigzag varints; the rest is skipped.
pub open spec fn spec_epicenter_fields(b: Seq<u8>, acc: Epicenter) -> Option<Epicenter>
    decreases b.len(),
    via spec_epicenter_fields_dec
{
    if b.len() == 0 {
        Some(acc)
    } else {
        match spec_varint(b) {
            None => None,
            Some((tagv, c)) => {
                if tagv > u32::MAX || tagv / 8 == 0 {
                    None
                } else {
                    let field = tagv / 8;
                    let wire = tagv % 8;
                    let rest = b.skip(c);
                    if wire == 0 {
                        match spec_varint(rest) {
                            None => None,
                            Some((v, c2)) => if v > u64::MAX {
                                None
                            } else {
                                let m = (v % 0x1_0000_0000) as u32;
                                if field == 1 {
                                    spec_epicenter_fields(
                                        rest.skip(c2),
                                        Epicenter { lat_x10: spec_zigzag(m), ..acc },
                                    )
                                } else if field == 2 {
                                    spec_epicenter_fields(
                                        rest.skip(c2),
                                        Epicenter { lon_x10: spec_zigzag(m), ..acc },
                                    )
                                } else {
                                    spec_epicenter_fields(rest.skip(c2), acc)
                                }
                            },
                        }
                    } else if wire == 2 {
                        match spec_varint(rest) {
                            None => None,
                            Some((l, c2)) => if l > rest.len() - c2 {
                                None
                            } else {
                                spec_epicenter_fields(rest.skip(c2 + l), acc)
                            },
                        }
                    } else if wire == 5 {
                        if rest.len() < 4 {
                            None
                        } else {
                            spec_epicenter_fields(rest.skip(4), acc)
                        }
                    } else if wire == 1 {
                        if rest.len() < 8 {
                            None
                        } else {
                            spec_epicenter_fields(rest.skip(8), acc)
                        }
                    } else {
                        None
                    }
                }
            },
        }
    }
}

/// Folds the fields of a `QuakePrefectureData` buffer.
pub open spec fn spec_qpd_fields(b: Seq<u8>, acc: QpdModel) -> Option<QpdModel>
    decreases b.len(),
    via spec_qpd_fields_dec
{
    if b.len() == 0 {
        Some(acc)
    } else {
        match spec_varint(b) {
            None => None,
            Some((tagv, c)) => {
                if tagv > u32::MAX || tagv / 8 == 0 {
                    None
                } else {
                    let field = tagv / 8;
                    let wire = tagv % 8;
                    let rest = b.skip(c);
                    if wire == 0 {
                        match spec_varint(rest) {
                            None => None,
                            Some((v, c2)) => if v > u64::MAX {
                                None
                            } else if field == 1 {
                                spec_qpd_fields(
                                    rest.skip(c2),
                                    QpdModel { time: (v % 0x1_0000_0000) as u32, ..acc },
                                )
                            } else {
                                spec_qpd_fields(rest.skip(c2), acc)
                            },
                        }
                    } else if wire == 2 {
                        match spec_varint(rest) {
                            None => None,
                            Some((l, c2)) => if l > rest.len() - c2 {
                                None
                            } else {
                                let payload = rest.skip(c2).take(l as int);
                                let after = rest.skip(c2 + l);
                                if field == 2 {
                                    let cur = match acc.epicenter {
                                        Some(e) => e,
                                        None => Epicenter { lat_x10: 0, lon_x10: 0 },
                                    };
                                    match spec_epicenter_fields(payload, cur) {
                                        None => None,
                                        Some(e) => spec_qpd_fields(
                                            after,
                                            QpdModel { epicenter: Some(e), ..acc },
                                        ),
                                    }
                                } else if 3 <= field <= 11 {
                                    let lv = (field - 3) as int;
                                    match spec_codes_fields(payload, acc.intensities[lv]) {
                                        None => None,
                                        Some(codes) => spec_qpd_fields(
                                            after,
                                            QpdModel {
                                                intensities: acc.intensities.update(lv, codes),
                                                ..acc
                                            },
                                        ),
                                    }
                                } else {
                                    spec_qpd_fields(after, acc)
                                }
                            },
                        }
                    } else if wire == 5 {
                        if rest.len() < 4 {
                            None
                        } else {
                            spec_qpd_fields(rest.skip(4), acc)
                        }
                    } else if wire == 1 {
                        if rest.len() < 8 {
                            None
                        } else {
                            spec_qpd_fields(rest.skip(8), acc)
                        }
                    } else {
                        None
                    }
                }
            },
        }
    }
}


#[via_fn]
proof fn spec_codes_fields_dec(b: Seq<u8>, acc: Seq<u32>) {
    lemma_varint_bounds(b);
    if b.len() != 0 {
        match spec_varint(b) {
            None => {},
            Some((tagv, c)) => {
                lemma_varint_bounds(b.skip(c));
            },
        }
    }
}

#[via_fn]
proof fn spec_packed_u32s_dec(b: Seq<u8>, acc: Seq<u32>) {
    lemma_varint_bounds(b);
}

#[via_fn]
proof fn spec_epicenter_fields_dec(b: Seq<u8>, acc: Epicenter) {
    lemma_varint_bounds(b);
    if b.len() != 0 {
        match spec_varint(b) {
            None => {},
            Some((tagv, c)) => {
                lemma_varint_bounds(b.skip(c));
            },
        }
    }
}

#[via_fn]
proof fn spec_qpd_fields_dec(b: Seq<u8>, acc: QpdModel) {
    lemma_varint_bounds(b);
    if b.len() != 0 {
        match spec_varint(b) {
            None => {},
            Some((tagv, c)) => {
                lemma_varint_bounds(b.skip(c));
            },
        }
    }
}

/// What decoding a body yields: the folded message, or nothing for a
/// malformed buffer.
pub open spec fn spec_decode_qpd(b: Seq<u8>) -> Option<QpdModel> {
    spec_qpd_fields(b, spec_qpd_default())
}

} // verus!

verus! {

/// Parses one varint within the window `pos..end` of the buffer; a
/// value that exceeds `u64` is rejected.
pub fn parse_varint_in(b: &Vec<u8>, pos: usize, end: usize) -> (r: Option<(u64, usize)>)
    requires
        pos <= end <= b@.len(),
    ensures
        match spec_varint(b@.subrange(pos as int, end as int)) {
            None => r is None,
            Some((v, c)) => if v <= u64::MAX {
                r == Some((v as u64, (pos + c) as usize))
            } else {
                r is None
            },
        },
        r matches Some((v, p2)) ==> pos < p2 <= end,
    decreases end - pos,
{
    proof {
        lemma_varint_bounds(b@.subrange(pos as int, end as int));
    }
    if pos >= end {
        return None;
    }
    let byte = b[pos];
    proof {
        assert(b@.subrange(pos as int, end as int)[0] == b@[pos as int]);
    }
    if byte < 128 {
        Some((byte as u64, pos + 1))
    } else {
        proof {
            assert(b@.subrange(pos as int, end as int).skip(1) =~= b@.subrange(
                pos + 1,
                end as int,
            ));
        }
        match parse_varint_in(b, pos + 1, end) {
            None => None,
            Some((v, p2)) => {
                let g = (byte - 128) as u64;
                if v <= (u64::MAX - g) / 128 {
                    proof {
                        assert(g + 128 * v <= u64::MAX) by (nonlinear_arith)
                            requires
                                v <= (u64::MAX - g) / 128,
                                g < 128,
                        {
                        }
                    }
                    Some((g + 128 * v, p2))
                } else {
                    proof {
                        assert(g + 128 * v > u64::MAX) by (nonlinear_arith)
                            requires
                                v > (u64::MAX - g) / 128,
                                g < 128,
                        {
                        }
                    }
                    None
                }
            },
        }
    }
}

/// The low 32 bits of a varint value, as the spec's modulus writes it.
fn truncate32(v: u64) -> (r: u32)
    ensures
        r == (v % 0x1_0000_0000) as u32,
{
    proof {
        assert(v % 0x1_0000_0000 == (v & 0xFFFF_FFFF)) by (bit_vector);
    }
    (v & 0xFFFF_FFFF) as u32
}

/// Reads back-to-back varints from the window, appending each.
fn parse_packed(b: &Vec<u8>, pos: usize, end: usize, acc: Vec<u32>) -> (r: Option<Vec<u32>>)
    requires
        pos <= end <= b@.len(),
    ensures
        match spec_packed_u32s(b@.subrange(pos as int, end as int), acc@) {
            None => r is None,
            Some(s) => r matches Some(v) && v@ == s,
        },
    decreases end - pos,
{
    proof {
        lemma_varint_bounds(b@.subrange(pos as int, end as int));
    }
    if pos >= end {
        return Some(acc);
    }
    match parse_varint_in(b, pos, end) {
        None => None,
        Some((v, p2)) => {
            let mut acc = acc;
            acc.push(truncate32(v));
            proof {
                let win = b@.subrange(pos as int, end as int);
                let c = (spec_varint(win)->0).1;
                assert(win.skip(c) =~= b@.subrange(p2 as int, end as int));
            }
            parse_packed(b, p2, end, acc)
        },
    }
}

/// Folds the fields of an `IntensityCodes` window.
#[verifier::rlimit(100)]
fn parse_codes(b: &Vec<u8>, pos: usize, end: usize, acc: Vec<u32>) -> (r: Option<Vec<u32>>)
    requires
        pos <= end <= b@.len(),
    ensures
        match spec_codes_fields(b@.subrange(pos as int, end as int), acc@) {
            None => r is None,
            Some(s) => r matches Some(v) && v@ == s,
        },
    decreases end - pos,
{
    proof {
        lemma_varint_bounds(b@.subrange(pos as int, end as int));
    }
    if pos >= end {
        return Some(acc);
    }
    let (tagv, p1) = match parse_varint_in(b, pos, end) {
        None => {
            return None;
        },
        Some(t) => t,
    };
    if tagv > 0xFFFF_FFFFu64 || tagv / 8 == 0 {
        return None;
    }
    let field = tagv / 8;
    let wire = tagv % 8;
    let ghost win = b@.subrange(pos as int, end as int);
    proof {
        let c = (spec_varint(win)->0).1;
        assert(win.skip(c) =~= b@.subrange(p1 as int, end as int));
        lemma_varint_bounds(b@.subrange(p1 as int, end as int));
    }
    if wire == 0 {
        match parse_varint_in(b, p1, end) {
            None => None,
            Some((v, p2)) => {
                proof {
                    let rest = b@.subrange(p1 as int, end as int);
                    let c2 = (spec_varint(rest)->0).1;
                    assert(rest.skip(c2) =~= b@.subrange(p2 as int, end as int));
                }
                if field == 1 {
                    let mut acc = acc;
                    acc.push(truncate32(v));
                    parse_codes(b, p2, end, acc)
                } else {
                    parse_codes(b, p2, end, acc)
                }
            },
        }
    } else if wire == 2 {
        match parse_varint_in(b, p1, end) {
            None => None,
            Some((l, p2)) => {
                proof {
                    let rest = b@.subrange(p1 as int, end as int);
                    let c2 = (spec_varint(rest)->0).1;
                    assert(rest.skip(c2) =~= b@.subrange(p2 as int, end as int));
                }
                if l > (end - p2) as u64 {
                    return None;
                }
                let l = l as usize;
                proof {
                    let rest = b@.subrange(p1 as int, end as int);
                    let c2 = (spec_varint(rest)->0).1;
                    assert(rest.skip(c2).take(l as int) =~= b@.subrange(p2 as int, p2 + l));
                    assert(rest.skip(c2 + l) =~= b@.subrange(p2 + l, end as int));
                }
                if field == 1 {
                    match parse_packed(b, p2, p2 + l, acc) {
                        None => None,
                        Some(acc2) => parse_codes(b, p2 + l, end, acc2),
                    }
                } else {
                    parse_codes(b, p2 + l, end, acc)
                }
            },
        }
    } else if wire == 5 {
        if end - p1 < 4 {
            None
        } else {
            proof {
                assert(b@.subrange(p1 as int, end as int).skip(4) =~= b@.subrange(
                    p1 + 4,
                    end as int,
                ));
            }
            parse_codes(b, p1 + 4, end, acc)
        }
    } else if wire == 1 {
        if end - p1 < 8 {
            None
        } else {
            proof {
                assert(b@.subrange(p1 as int, end as int).skip(8) =~= b@.subrange(
                    p1 + 8,
                    end as int,
                ));
            }
            parse_codes(b, p1 + 8, end, acc)
        }
    } else {
        None
    }
}

/// Folds the fields of an `Epicenter` window.
#[verifier::rlimit(100)]
fn parse_epicenter(b: &Vec<u8>, pos: usize, end: usize, acc: Epicenter) -> (r: Option<Epicenter>)
    requires
        pos <= end <= b@.len(),
    ensures
        r == spec_epicenter_fields(b@.subrange(pos as int, end as int), acc),
    decreases end - pos,
{
    proof {
        lemma_varint_bounds(b@.subrange(pos as int, end as int));
    }
    if pos >= end {
        return Some(acc);
    }
    let (tagv, p1) = match parse_varint_in(b, pos, end) {
        None => {
            return None;
        },
        Some(t) => t,
    };
    if tagv > 0xFFFF_FFFFu64 || tagv / 8 == 0 {
        return None;
    }
    let field = tagv / 8;
    let wire = tagv % 8;
    let ghost win = b@.subrange(pos as int, end as int);
    proof {
        let c = (spec_varint(win)->0).1;
        assert(win.skip(c) =~= b@.subrange(p1 as int, end as int));
        lemma_varint_bounds(b@.subrange(p1 as int, end as int));
    }
    if wire == 0 {
        match parse_varint_in(b, p1, end) {
            None => None,
            Some((v, p2)) => {
                proof {
                    let rest = b@.subrange(p1 as int, end as int);
                    let c2 = (spec_varint(rest)->0).1;
                    assert(rest.skip(c2) =~= b@.subrange(p2 as int, end as int));
                }
                let m = truncate32(v);
                if field == 1 {
                    parse_epicenter(b, p2, end, Epicenter { lat_x10: zigzag_decode(m), ..acc })
                } else if field == 2 {
                    parse_epicenter(b, p2, end, Epicenter { lon_x10: zigzag_decode(m), ..acc })
                } else {
                    parse_epicenter(b, p2, end, acc)
                }
            },
        }
    } else if wire == 2 {
        match parse_varint_in(b, p1, end) {
            None => None,
            Some((l, p2)) => {
                proof {
                    let rest = b@.subrange(p1 as int, end as int);
                    let c2 = (spec_varint(rest)->0).1;
                    assert(rest.skip(c2) =~= b@.subrange(p2 as int, end as int));
                }
                if l > (end - p2) as u64 {
                    return None;
                }
                let l = l as usize;
                proof {
                    let rest = b@.subrange(p1 as int, end as int);
                    let c2 = (spec_varint(rest)->0).1;
                    assert(rest.skip(c2 + l) =~= b@.subrange(p2 + l, end as int));
                }
                parse_epicenter(b, p2 + l, end, acc)
            },
        }
    } else if wire == 5 {
        if end - p1 < 4 {
            None
        } else {
            proof {
                assert(b@.subrange(p1 as int, end as int).skip(4) =~= b@.subrange(
                    p1 + 4,
                    end as int,
                ));
            }
            parse_epicenter(b, p1 + 4, end, acc)
        }
    } else if wire == 1 {
        if end - p1 < 8 {
            None
        } else {
            proof {
                assert(b@.subrange(p1 as int, end as int).skip(8) =~= b@.subrange(
                    p1 + 8,
                    end as int,
                ));
            }
            parse_epicenter(b, p1 + 8, end, acc)
        }
    } else {
        None
    }
}

/// Folds the fields of a `QuakePrefectureData` window.
#[verifier::rlimit(100)]
fn parse_qpd(b: &Vec<u8>, pos: usize, end: usize, acc: QuakePrefectureData) -> (r: Option<
    QuakePrefectureData,
>)
    requires
        pos <= end <= b@.len(),
        acc.intensities@.len() == INTENSITY_LEVELS,
    ensures
        match spec_qpd_fields(b@.subrange(pos as int, end as int), acc@) {
            None => r is None,
            Some(m) => r matches Some(d) && d@ == m && d.intensities@.len() == INTENSITY_LEVELS,
        },
    decreases end - pos,
{
    proof {
        lemma_varint_bounds(b@.subrange(pos as int, end as int));
    }
    if pos >= end {
        return Some(acc);
    }
    let (tagv, p1) = match parse_varint_in(b, pos, end) {
        None => {
            return None;
        },
        Some(t) => t,
    };
    if tagv > 0xFFFF_FFFFu64 || tagv / 8 == 0 {
        return None;
    }
    let field = tagv / 8;
    let wire = tagv % 8;
    let ghost win = b@.subrange(pos as int, end as int);
    proof {
        let c = (spec_varint(win)->0).1;
        assert(win.skip(c) =~= b@.subrange(p1 as int, end as int));
        lemma_varint_bounds(b@.subrange(p1 as int, end as int));
    }
    if wire == 0 {
        match parse_varint_in(b, p1, end) {
            None => None,
            Some((v, p2)) => {
                proof {
                    let rest = b@.subrange(p1 as int, end as int);
                    let c2 = (spec_varint(rest)->0).1;
                    assert(rest.skip(c2) =~= b@.subrange(p2 as int, end as int));
                }
                if field == 1 {
                    let mut acc = acc;
                    acc.time = truncate32(v);
                    parse_qpd(b, p2, end, acc)
                } else {
                    parse_qpd(b, p2, end, acc)
                }
            },
        }
    } else if wire == 2 {
        match parse_varint_in(b, p1, end) {
            None => None,
            Some((l, p2)) => {
                proof {
                    let rest = b@.subrange(p1 as int, end as int);
                    let c2 = (spec_varint(rest)->0).1;
                    assert(rest.skip(c2) =~= b@.subrange(p2 as int, end as int));
                }
                if l > (end - p2) as u64 {
                    return None;
                }
                let l = l as usize;
                proof {
                    let rest = b@.subrange(p1 as int, end as int);
                    let c2 = (spec_varint(rest)->0).1;
                    assert(rest.skip(c2).take(l as int) =~= b@.subrange(p2 as int, p2 + l));
                    assert(rest.skip(c2 + l) =~= b@.subrange(p2 + l, end as int));
                }
                if field == 2 {
                    let cur = match acc.epicenter {
                        Some(e) => e,
                        None => Epicenter { lat_x10: 0, lon_x10: 0 },
                    };
                    match parse_epicenter(b, p2, p2 + l, cur) {
                        None => None,
                        Some(e) => {
                            let mut acc = acc;
                            acc.epicenter = Some(e);
                            parse_qpd(b, p2 + l, end, acc)
                        },
                    }
                } else if 3 <= field && field <= 11 {
                    let ghost model0 = acc@;
                    let lv = (field - 3) as usize;
                    let mut acc = acc;
                    let mut codes: Vec<u32> = Vec::new();
                    std::mem::swap(&mut codes, &mut acc.intensities[lv]);
                    proof {
                        assert(codes@ == model0.intensities[lv as int]);
                    }
                    match parse_codes(b, p2, p2 + l, codes) {
                        None => None,
                        Some(codes2) => {
                            acc.intensities[lv] = codes2;
                            proof {
                                assert(acc@.intensities =~= model0.intensities.update(
                                    lv as int,
                                    codes2@,
                                ));
                            }
                            parse_qpd(b, p2 + l, end, acc)
                        },
                    }
                } else {
                    parse_qpd(b, p2 + l, end, acc)
                }
            },
        }
    } else if wire == 5 {
        if end - p1 < 4 {
            None
        } else {
            proof {
                assert(b@.subrange(p1 as int, end as int).skip(4) =~= b@.subrange(
                    p1 + 4,
                    end as int,
                ));
            }
            parse_qpd(b, p1 + 4, end, acc)
        }
    } else if wire == 1 {
        if end - p1 < 8 {
            None
        } else {
            proof {
                assert(b@.subrange(p1 as int, end as int).skip(8) =~= b@.subrange(
                    p1 + 8,
                    end as int,
                ));
            }
            parse_qpd(b, p1 + 8, end, acc)
        }
    } else {
        None
    }
}

/// Decodes a request body; `None` for a malformed buffer.
pub fn decode_quake_prefecture(body: &Vec<u8>) -> (r: Option<QuakePrefectureData>)
    ensures
        match spec_decode_qpd(body@) {
            None => r is None,
            Some(m) => r matches Some(d) && d@ == m && d.intensities@.len() == INTENSITY_LEVELS,
        },
{
    let mut intensities: Vec<Vec<u32>> = Vec::new();
    let mut i: usize = 0;
    while i < INTENSITY_LEVELS
        invariant
            i <= INTENSITY_LEVELS,
            intensities@.len() == i,
            forall|j: int| 0 <= j < i ==> (#[trigger] intensities@[j])@ == Seq::<u32>::empty(),
        decreases INTENSITY_LEVELS - i,
    {
        intensities.push(Vec::new());
        i += 1;
    }
    let acc = QuakePrefectureData { time: 0, epicenter: None, intensities };
    proof {
        assert(acc@.intensities =~= spec_qpd_default().intensities);
        assert(acc@ == spec_qpd_default());
        assert(body@.subrange(0, body@.len() as int) =~= body@);
    }
    parse_qpd(body, 0, body.len(), acc)
}

} // verus!
