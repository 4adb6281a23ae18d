//! The system-state probe: a single numeric reading that may be unavailable.

use vstd::prelude::*;

verus! {

/// One reading of the component under test.
#[derive(Clone, Copy, Debug, PartialEq, Eq, Structural)]
pub struct SystemState {
    /// Temperature in degrees Celsius.
    pub temperature: u32,
}

/// Why a reading could not be taken.
#[derive(Clone, Copy, Debug, PartialEq, Eq, Structural)]
pub enum SystemError {
    /// The state of the system could not be retrieved.
    Fail,
}

impl SystemError {
    /// The text shown for this error.
    pub open spec fn spec_message(self) -> Seq<char> {
        "cannot get system state"@
    }

    /// The text shown for this error.
    pub fn message(&self) -> (text: String)
        ensures
            text@ == self.spec_message(),
    {
        "cannot get system state".to_owned()
    }
}

/// The reading that the stand-in probe reports.
pub const MOCK_TEMPERATURE: u32 = 25;

/// Measures the system state. This stand-in always succeeds and reports
/// [`MOCK_TEMPERATURE`]; a real diagnostic reads the component of interest.
pub fn get_system_state() -> (reading: Result<SystemState, SystemError>)
    ensures
        reading == Ok::<SystemState, SystemError>(SystemState { temperature: MOCK_TEMPERATURE }),
{
    Ok(SystemState { temperature: MOCK_TEMPERATURE })
}

} // verus!
