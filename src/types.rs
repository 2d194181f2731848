//! Plain data shared by the compiler: colours, LED strips, requests, errors.
use vstd::prelude::*;

verus! {

/// Largest value an alpha (opacity) channel can hold.
pub const MAX_ALPHA: i32 = 255;

/// Largest value a colour channel can hold.
pub const MAX_CHANNEL: i32 = 255;

/// An RGB colour.
#[derive(Debug, Clone, Copy, PartialEq, Eq, Structural, Default)]
pub struct Color {
    pub r: i32,
    pub g: i32,
    pub b: i32,
}

impl Color {
    /// Every channel fits in one byte.
    pub open spec fn wf(&self) -> bool {
        0 <= self.r <= MAX_CHANNEL && 0 <= self.g <= MAX_CHANNEL && 0 <= self.b <= MAX_CHANNEL
    }

    pub open spec fn black() -> Color {
        Color { r: 0, g: 0, b: 0 }
    }
}

/// A colour together with its opacity.
#[derive(Debug, Clone, Copy, PartialEq, Eq, Structural)]
pub struct Rgba {
    pub r: i32,
    pub g: i32,
    pub b: i32,
    pub a: i32,
}

impl Rgba {
    pub open spec fn wf(&self) -> bool {
        &&& 0 <= self.r <= MAX_CHANNEL
        &&& 0 <= self.g <= MAX_CHANNEL
        &&& 0 <= self.b <= MAX_CHANNEL
        &&& 0 <= self.a <= MAX_ALPHA
    }

    pub open spec fn transparent() -> Rgba {
        Rgba { r: 0, g: 0, b: 0, a: 0 }
    }
}

/// An LED strip requested for export: its channel id and its number of LEDs.
#[derive(Debug, Clone, Copy, PartialEq, Eq, Structural)]
pub struct LEDPart {
    pub id: i32,
    pub len: i32,
}

impl LEDPart {
    pub fn new(id: i32, len: i32) -> (r: LEDPart)
        ensures
            r.id == id,
            r.len == len,
    {
        LEDPart { id, len }
    }

    pub fn get_len(&self) -> (r: i32)
        ensures
            r == self.len,
    {
        self.len
    }

    pub fn get_id(&self) -> (r: i32)
        ensures
            r == self.id,
    {
        self.id
    }
}

/// Why a compile did not produce output.
#[derive(Debug, Clone, Copy, PartialEq, Eq, Structural)]
pub enum CompileError {
    /// A count does not fit the single-byte field of the wire format.
    RangeViolation,
    /// A part's first frame keeps the previous colour, but there is none.
    FirstFrameNoEffect,
    /// A control row refers to an effect that was not built.
    EffectNotFound,
    /// A gradient stop lies outside its part's strip.
    PositionOutOfBounds,
}

/// A request for one dancer's export: the fibre parts (name and part id), the
/// LED strips (name and strip), and the merge declarations that let a logical
/// LED strip take its rows from several physical parts.
pub struct GetControlDatQuery {
    pub dancer: String,
    pub of_parts: Vec<(String, i32)>,
    pub led_parts: Vec<(String, LEDPart)>,
    pub led_merge: Vec<(String, Vec<String>)>,
}

/// The body of a failed export.
pub struct GetDataFailedResponse {
    pub err: String,
}

} // verus!
