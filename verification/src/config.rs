//! Frequency bands of the modem.
use vstd::prelude::*;

use crate::args::Bands;

verus! {

/// A frequency band: a carrier, the deviation of the second tone above it,
/// and the tolerance around each tone.
#[derive(Debug, Clone, Copy, PartialEq, Eq, Structural)]
pub struct Band {
    pub carrier: u32,
    pub deviation: u32,
    pub threshold: u32,
}

impl Band {
    /// A new band.
    pub fn new(carrier: u32, deviation: u32, threshold: u32) -> (b: Self)
        ensures
            b == (Band { carrier, deviation, threshold }),
    {
        Self { carrier, deviation, threshold }
    }

    pub fn carrier(&self) -> (c: u32)
        ensures
            c == self.carrier,
    {
        self.carrier
    }

    pub fn deviation(&self) -> (d: u32)
        ensures
            d == self.deviation,
    {
        self.deviation
    }

    pub fn threshold(&self) -> (t: u32)
        ensures
            t == self.threshold,
    {
        self.threshold
    }
}

/// The first band: carrier 3300 Hz.
pub fn band1() -> (b: Band)
    ensures
        b == band_of(Bands::Band1),
{
    Band { carrier: 3300, deviation: 600, threshold: 300 }
}

/// The second band: carrier 4500 Hz.
pub fn band2() -> (b: Band)
    ensures
        b == band_of(Bands::Band2),
{
    Band { carrier: 4500, deviation: 600, threshold: 300 }
}

/// The third band: carrier 5700 Hz.
pub fn band3() -> (b: Band)
    ensures
        b == band_of(Bands::Band3),
{
    Band { carrier: 5700, deviation: 600, threshold: 300 }
}

/// The band that each choice on the command line names.
pub open spec fn band_of(band: Bands) -> Band {
    match band {
        Bands::Band1 => Band { carrier: 3300, deviation: 600, threshold: 300 },
        Bands::Band2 => Band { carrier: 4500, deviation: 600, threshold: 300 },
        Bands::Band3 => Band { carrier: 5700, deviation: 600, threshold: 300 },
    }
}

impl From<Bands> for Band {
    fn from(band: Bands) -> (b: Self) {
        match band {
            Bands::Band1 => band1(),
            Bands::Band2 => band2(),
            Bands::Band3 => band3(),
        }
    }
}

impl vstd::std_specs::convert::FromSpecImpl<Bands> for Band {
    open spec fn obeys_from_spec() -> bool {
        true
    }

    open spec fn from_spec(band: Bands) -> Band {
        band_of(band)
    }
}

} // verus!
