//! Small renderer-side value types and the draw-request signature.

use vstd::prelude::*;
use crate::codec::{hmac_sha256, hmac_sha256_of, hex_of, to_hex};
use crate::context::IntensityLevel;

verus! {

/// An integer pixel extent.
#[derive(Eq, PartialEq, Structural, Copy, Clone, Debug)]
pub struct SizeU {
    pub x: u32,
    pub y: u32,
}

impl SizeU {
    pub fn from_tuple(v: (u32, u32)) -> (r: SizeU)
        ensures
            r == (SizeU { x: v.0, y: v.1 }),
    {
        SizeU { x: v.0, y: v.1 }
    }
}

/// An area with the intensity it is to be painted in.
#[derive(Clone, Copy, PartialEq, Eq, Structural, Debug)]
pub struct Area {
    pub code: u32,
    pub intensity: IntensityLevel,
}

impl Area {
    pub fn new(code: u32, intensity: IntensityLevel) -> (r: Area)
        ensures
            r == (Area { code, intensity }),
    {
        Area { code, intensity }
    }
}

/// The fonts the overlay text is set in.
#[derive(Copy, Clone, PartialEq, Eq, Structural, Debug)]
pub enum Font {
    BizUdpGothicBold,
}

/// A corner (or the middle) an offset is measured from.
#[derive(Copy, Clone, PartialEq, Eq, Structural, Debug)]
pub enum Origin {
    LeftUp,
    LeftDown,
    RightUp,
    RightDown,
    Center,
}

/// Where a text block sits on an image: which image corner anchors it,
/// which text corner touches the anchor, and the pixel offset between.
#[derive(Copy, Clone, PartialEq, Eq, Structural, Debug)]
pub struct Offset {
    pub image_origin: Origin,
    pub text_origin: Origin,
    pub x: i32,
    pub y: i32,
}

impl Offset {
    pub fn new(image_origin: Origin, text_origin: Origin, x: i32, y: i32) -> (r: Offset)
        ensures
            r == (Offset { image_origin, text_origin, x, y }),
    {
        Offset { image_origin, text_origin, x, y }
    }
}

/// A raw RGBA frame as read back from the framebuffer.
#[derive(Debug)]
pub struct RGBAImageData {
    pub data: Vec<u8>,
    pub width: u32,
    pub height: u32,
}

/// The public API version of the draw service.
#[derive(Clone, Copy, PartialEq, Eq, Structural, Debug)]
pub enum Version {
    V1,
}

/// A draw request: the content to draw and its hexadecimal signature.
#[derive(Debug)]
pub struct DrawQuery {
    pub content: String,
    pub sign: String,
}

/// Whether the signature of a draw request is the hexadecimal HMAC-SHA256
/// tag of its content under the server key.
pub fn check_draw_signature(key: &Vec<u8>, content: &Vec<u8>, sign: &String) -> (r: bool)
    ensures
        r <==> sign@ == hex_of(hmac_sha256_of(key@, content@)),
{
    let tag = hmac_sha256(key, content);
    let expected = to_hex(&tag);
    sign.eq(&expected)
}

/// The draw endpoint's answer: a bad signature is refused with status
/// 400; a good one reaches the (not yet available) draw service, 503.
pub fn draw_decision(key: &Vec<u8>, content: &Vec<u8>, sign: &String) -> (r: (u16, String))
    ensures
        sign@ == hex_of(hmac_sha256_of(key@, content@)) ==> r.0 == 503 && r.1@ =~= Seq::<
            char,
        >::empty(),
        sign@ != hex_of(hmac_sha256_of(key@, content@)) ==> r.0 == 400 && r.1@
            == "Invalid Signature"@,
{
    if check_draw_signature(key, content, sign) {
        (503, String::new())
    } else {
        (400, String::from_str("Invalid Signature"))
    }
}

} // verus!
