//! What a request asks to be drawn.
//!
//! A rendering context carries the occurrence time (UNIX seconds), the
//! optional epicenter (signed decidegrees), the per-level area code
//! lists, and the request's log tag. Two variants exist: the intensity
//! map and the tsunami forecast map.

use vstd::prelude::*;
use crate::proto::{QuakePrefectureData, Epicenter, INTENSITY_LEVELS};

verus! {

/// A seismic intensity level, weakest to strongest.
#[derive(Clone, Copy, PartialEq, Eq, Structural, Debug)]
pub enum IntensityLevel {
    One,
    Two,
    Three,
    Four,
    FiveLower,
    FiveUpper,
    SixLower,
    SixUpper,
    Seven,
}

/// A tsunami forecast level, weakest to strongest.
#[derive(Clone, Copy, PartialEq, Eq, Structural, Debug)]
pub enum TsunamiLevel {
    Forecast,
    Advisory,
    Warning,
    MajorWarning,
}

/// Anything that carries the request's log tag.
pub trait HasRequestIdentity {
    fn request_identity(&self) -> String;
}

/// Anything that carries an occurrence time, in UNIX seconds.
pub trait HasTime {
    fn time(&self) -> u32;
}

/// Anything that may carry an epicenter, in signed decidegrees.
pub trait HasEpicenter {
    fn epicenter(&self) -> Option<Epicenter>;
}

/// The intensity-map request: time, optional epicenter, one area-code
/// list per intensity level (weakest first), and the log tag.
#[derive(Debug)]
pub struct RenderingContextV0 {
    pub time: u32,
    pub epicenter: Option<Epicenter>,
    pub area_intensities: Vec<Vec<u32>>,
    pub request_identity: String,
}

/// The tsunami-map request: time, optional epicenter, one area-code
/// list per forecast level (weakest first), and the log tag.
#[derive(Debug)]
pub struct Tsunami {
    pub time: u32,
    pub epicenter: Option<Epicenter>,
    pub forecast_levels: Vec<Vec<u32>>,
    pub request_identity: String,
}

/// A request to the worker: one of the two map kinds.
#[derive(Debug)]
pub enum RenderingContext {
    V0(RenderingContextV0),
    Tsunami(Tsunami),
}

impl RenderingContext {
    /// The log tag of either variant.
    pub fn request_identity(&self) -> (r: &String)
        ensures
            (*self) matches RenderingContext::V0(v) ==> r == v.request_identity,
            (*self) matches RenderingContext::Tsunami(t) ==> r == t.request_identity,
    {
        match self {
            RenderingContext::V0(v0) => &v0.request_identity,
            RenderingContext::Tsunami(tsunami) => &tsunami.request_identity,
        }
    }
}

impl HasRequestIdentity for RenderingContextV0 {
    fn request_identity(&self) -> String {
        self.request_identity.clone()
    }
}

impl HasRequestIdentity for Tsunami {
    fn request_identity(&self) -> String {
        self.request_identity.clone()
    }
}

impl HasTime for RenderingContextV0 {
    fn time(&self) -> u32 {
        self.time
    }
}

impl HasTime for Tsunami {
    fn time(&self) -> u32 {
        self.time
    }
}

impl HasEpicenter for RenderingContextV0 {
    fn epicenter(&self) -> Option<Epicenter> {
        self.epicenter
    }
}

impl HasEpicenter for Tsunami {
    fn epicenter(&self) -> Option<Epicenter> {
        self.epicenter
    }
}

impl RenderingContextV0 {
    /// Builds the intensity-map context from a decoded body: the decoded
    /// fields are carried over unchanged, level by level.
    pub fn from_decoded(decoded: QuakePrefectureData, request_identity: String) -> (r:
        RenderingContextV0)
        requires
            decoded.intensities@.len() == INTENSITY_LEVELS,
        ensures
            r.time == decoded.time,
            r.epicenter == decoded.epicenter,
            r.area_intensities@.len() == INTENSITY_LEVELS,
            forall|i: int|
                0 <= i < INTENSITY_LEVELS ==> (#[trigger] r.area_intensities@[i])@
                    == decoded@.intensities[i],
            r.request_identity@ == request_identity@,
    {
        RenderingContextV0 {
            time: decoded.time,
            epicenter: decoded.epicenter,
            area_intensities: decoded.intensities,
            request_identity,
        }
    }
}

} // verus!
