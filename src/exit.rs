//! Leaving the machine: the codes the test device understands.
use vstd::prelude::*;

verus! {

/// The value that reports success to the test device.
pub const SUCCESS: u32 = 0x5555;

/// The value that reports failure.
pub const FAIL: u32 = 0x3333;

/// The value that resets the machine.
pub const RESET: u32 = 0x7777;

/// The address of the test device.
pub const EXIT_ADDRESS: u64 = 0x10_0000;

/// Why the machine stops.
#[derive(PartialEq, Eq, Structural, Clone, Copy, Debug)]
pub enum ExitCode {
    Success,
    Failed,
    Reset,
}

/// The value the test device expects for `code`.
pub open spec fn exit_value(code: ExitCode) -> u32 {
    match code {
        ExitCode::Success => SUCCESS,
        ExitCode::Failed => FAIL,
        ExitCode::Reset => RESET,
    }
}

/// The value the test device expects for `code`.
pub fn lookup_exitcode(code: ExitCode) -> (r: u32)
    ensures
        r == exit_value(code),
{
    match code {
        ExitCode::Success => SUCCESS,
        ExitCode::Failed => FAIL,
        _ => RESET,
    }
}

/// An exit through the test device at `addr`.
#[derive(PartialEq, Eq, Structural, Clone, Copy, Debug)]
pub struct RISCVExit {
    pub addr: u64,
    pub reason: ExitCode,
}

impl RISCVExit {
    pub fn new(addr: u64, reason: ExitCode) -> (r: RISCVExit)
        ensures
            r == (RISCVExit { addr, reason }),
    {
        RISCVExit { addr, reason }
    }

    /// The store that stops the machine for `reason`: the address of the
    /// device and the word to write there.
    pub fn exit(&self, reason: ExitCode) -> (r: (u64, u32))
        ensures
            r.0 == self.addr,
            r.1 == exit_value(reason),
    {
        (self.addr, lookup_exitcode(reason))
    }

    /// The store that reports success.
    pub fn exit_success(&self) -> (r: (u64, u32))
        ensures
            r == (self.addr, SUCCESS),
    {
        self.exit(ExitCode::Success)
    }

    /// The store that reports failure.
    pub fn exit_failure(&self) -> (r: (u64, u32))
        ensures
            r == (self.addr, FAIL),
    {
        self.exit(ExitCode::Failed)
    }
}

/// The store that stops the machine for `reason` through the test device.
pub fn exit(reason: ExitCode) -> (r: (u64, u32))
    ensures
        r == (EXIT_ADDRESS, exit_value(reason)),
{
    RISCVExit::new(EXIT_ADDRESS, reason).exit(reason)
}

} // verus!
