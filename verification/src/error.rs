//! Errors of the modem.
use vstd::prelude::*;

verus! {

/// What can go wrong while configuring the modem or reading a frame.
#[derive(Debug, Clone, Copy, PartialEq, Eq, Structural)]
pub enum Error {
    InvalidBaudrate,
    InvalidSamplerate,
    InvalidChannels,
    InvalidCarrierFreq,
    InvalidDeviationFreq,
    InvalidModulationMethod,
    InvalidFrameLength,
    FCSValidationFailed,
    InvalidPhysicalFrame,
}

/// Result of the modem's fallible operations.
pub type Result<T> = core::result::Result<T, Error>;

/// The text that describes each error.
pub open spec fn error_message(e: Error) -> Seq<char> {
    match e {
        Error::InvalidBaudrate => "Invalid baudrate"@,
        Error::InvalidSamplerate => "Invalid samplerate"@,
        Error::InvalidChannels => "Invalid channels"@,
        Error::InvalidCarrierFreq => "Invalid carrier frequency"@,
        Error::InvalidDeviationFreq => "Invalid deviation frequency"@,
        Error::InvalidModulationMethod => "Invalid modulation method"@,
        Error::InvalidFrameLength => "Invalid frame length"@,
        Error::FCSValidationFailed => "Frame check sequence validation failed"@,
        Error::InvalidPhysicalFrame => "Invalid physical layer frame"@,
    }
}

impl Error {
    /// The text that describes the error.
    pub fn message(&self) -> (s: String)
        ensures
            s@ == error_message(*self),
    {
        match self {
            Error::InvalidBaudrate => String::from_str("Invalid baudrate"),
            Error::InvalidSamplerate => String::from_str("Invalid samplerate"),
            Error::InvalidChannels => String::from_str("Invalid channels"),
            Error::InvalidCarrierFreq => String::from_str("Invalid carrier frequency"),
            Error::InvalidDeviationFreq => String::from_str("Invalid deviation frequency"),
            Error::InvalidModulationMethod => String::from_str("Invalid modulation method"),
            Error::InvalidFrameLength => String::from_str("Invalid frame length"),
            Error::FCSValidationFailed => String::from_str(
                "Frame check sequence validation failed",
            ),
            Error::InvalidPhysicalFrame => String::from_str("Invalid physical layer frame"),
        }
    }
}

} // verus!
