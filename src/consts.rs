//! Constants of the machine and of process layout.
use vstd::prelude::*;

verus! {

/// The pages of stack the kernel's first process gets.
pub const STACK_PAGES: u64 = 5;

/// Where process stacks are placed.
pub const STACK_ADDR: u64 = 0x1_0000_0000;

/// Where process code starts.
pub const PROCESS_START_ADDR: u64 = 0x2000_0000;

/// The privilege a context switch enters.
#[derive(PartialEq, Eq, Structural, Clone, Copy, Debug)]
pub enum SwitchMode {
    User,
    Supervisor,
}

impl SwitchMode {
    /// The mode's name.
    pub fn name(&self) -> (r: &'static str)
        ensures
            *self == SwitchMode::User ==> r@ == "User"@,
            *self == SwitchMode::Supervisor ==> r@ == "Supervisor"@,
    {
        match self {
            SwitchMode::User => "User",
            SwitchMode::Supervisor => "Supervisor",
        }
    }
}

} // verus!
