//! The errors a read plan can report to its caller.
//!
//! Lower-level failures (flasher construction, the read/verify operation
//! itself) happen in the driver that executes the plan and are passed through
//! by it unchanged; they are not part of this taxonomy. A failure of an
//! algorithm-name or core-name lookup at dispatch time would be an internal
//! invariant violation, not an error: here the closed-world invariant of the
//! target description is stated as a precondition and the lookups are proved
//! to succeed.

use vstd::prelude::*;
use crate::region::NvmRegion;

verus! {

/// Why a read request could not even be planned.
#[derive(Debug)]
pub enum FlashError {
    /// A non-alias NVM region's address range is covered by no flash
    /// algorithm of the target description.
    NoFlashAlgorithm,
    /// A non-alias NVM region lists no core that may access it; carries the
    /// offending region for diagnostics.
    NoNvmCoreAccess(NvmRegion),
}

impl FlashError {
    /// A short description of the error, for reporting by a driver.
    pub fn describe(&self) -> (r: &'static str)
        ensures
            *self is NoFlashAlgorithm ==> r@ == "no flash algorithm covers an NVM region"@,
            *self is NoNvmCoreAccess ==> r@ == "no core may access an NVM region"@,
    {
        match self {
            FlashError::NoFlashAlgorithm => "no flash algorithm covers an NVM region",
            FlashError::NoNvmCoreAccess(_) => "no core may access an NVM region",
        }
    }
}

} // verus!
