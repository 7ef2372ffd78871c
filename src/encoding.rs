//! RISC-V encodings: control registers, privilege modes, trap causes and
//! the register numbers the kernel reads.
use vstd::prelude::*;

verus! {

pub const CLINT_BASE_ADDR: u64 = 0x2000_0000;
pub const INTERVAL: u64 = 20_000_000;
pub const MTIME_REG_HI_ADDR: u64 = 0x4000;
pub const MTIME_REG_LO_ADDR: u64 = 0x4004;
pub const CLINT_MTIME_LO_ADDR: u64 = 0x2000_bff8;

/// Machine software interrupt pending.
pub const MIP_MSIP: u64 = 0x8;

/// Machine interrupt enable bit.
pub const MSTATUS_MIE: u64 = 0x8;

/// Machine timer interrupt enable.
pub const MIE_MTIE: u64 = 0x80;

/// The bit of a cause code that marks an interrupt.
pub const CAUSE_INTERRUPT_BIT: u64 = 0x8000_0000_0000_0000;

/// Control and status registers.
#[derive(PartialEq, Eq, Structural, Clone, Copy, Debug)]
pub enum CSRegister {
    /// The machine status register.
    Mstatus,
    Mie,
}

impl CSRegister {
    /// The register's number.
    pub fn val(self) -> (r: u64)
        ensures
            r == match self {
                CSRegister::Mstatus => 0x300u64,
                CSRegister::Mie => 0x304u64,
            },
    {
        match self {
            CSRegister::Mstatus => 0x300,
            CSRegister::Mie => 0x304,
        }
    }
}

/// Execution modes.
#[derive(PartialEq, Eq, Structural, Clone, Copy, Debug)]
pub enum CpuMode {
    User,
    Supervisor,
    Machine,
}

impl CpuMode {
    pub open spec fn spec_val(self) -> u64 {
        match self {
            CpuMode::User => 0,
            CpuMode::Supervisor => 1,
            CpuMode::Machine => 3,
        }
    }

    /// The mode's number.
    pub fn val(self) -> (r: u64)
        ensures
            r == self.spec_val(),
    {
        match self {
            CpuMode::User => 0,
            CpuMode::Supervisor => 1,
            CpuMode::Machine => 3,
        }
    }
}

/// Interrupt causes.
#[derive(PartialEq, Eq, Structural, Clone, Copy, Debug)]
pub enum Interrupt {
    UserSoftware,
    SupervisorSoftware,
    MachineSoftware,
    UserTimer,
    SupervisorTimer,
    MachineTimer,
    UserExternal,
    SupervisorExternal,
    MachineExternal,
}

impl Interrupt {
    /// The interrupt a cause number names, among those the kernel knows:
    /// user, supervisor and machine software interrupts and the machine timer.
    pub open spec fn spec_from(value: u64) -> Option<Interrupt> {
        if value == 0 {
            Some(Interrupt::UserSoftware)
        } else if value == 1 {
            Some(Interrupt::SupervisorSoftware)
        } else if value == 3 {
            Some(Interrupt::MachineSoftware)
        } else if value == 7 {
            Some(Interrupt::MachineTimer)
        } else {
            None
        }
    }

    /// Whether the kernel knows the interrupt with cause number `value`.
    pub fn is_known(value: u64) -> (r: bool)
        ensures
            r == Self::spec_from(value) is Some,
    {
        value == 0 || value == 1 || value == 3 || value == 7
    }

    /// Decodes a cause number the kernel knows; an unknown one is a fatal
    /// fault, which callers rule out first with `is_known`.
    pub fn from_usize(value: u64) -> (r: Interrupt)
        requires
            Self::spec_from(value) is Some,
        ensures
            Self::spec_from(value) == Some(r),
    {
        match value {
            0 => Interrupt::UserSoftware,
            1 => Interrupt::SupervisorSoftware,
            3 => Interrupt::MachineSoftware,
            _ => Interrupt::MachineTimer,
        }
    }
}

/// The registers the kernel reads by number.
#[derive(PartialEq, Eq, Structural, Clone, Copy, Debug)]
pub enum Register {
    Zero,
    A0,
    A1,
    A2,
    A3,
    A4,
    A5,
    A6,
    A7,
}

impl Register {
    pub open spec fn spec_index(self) -> int {
        match self {
            Register::Zero => 0,
            Register::A0 => 10,
            Register::A1 => 11,
            Register::A2 => 12,
            Register::A3 => 13,
            Register::A4 => 14,
            Register::A5 => 15,
            Register::A6 => 16,
            Register::A7 => 17,
        }
    }

    /// The register's number.
    pub fn index(self) -> (r: usize)
        ensures
            r == self.spec_index(),
    {
        match self {
            Register::Zero => 0,
            Register::A0 => 10,
            Register::A1 => 11,
            Register::A2 => 12,
            Register::A3 => 13,
            Register::A4 => 14,
            Register::A5 => 15,
            Register::A6 => 16,
            Register::A7 => 17,
        }
    }
}

/// Exception causes.
#[derive(PartialEq, Eq, Structural, Clone, Copy, Debug)]
pub enum Exception {
    InstructionAddrMisaligned,
    InstructionAccessFault,
    IllegaInstruction,
    LoadAddrMisaligned,
    LoadAccessFault,
    StoreAMOAddrMisaligned,
    StoreAMOAccessFault,
    EnvCallFromUMode,
    EnvCallFromSMode,
    EnvCallFromMMode,
    InstructionPageFault,
    LoadPageFault,
    StoreAMOPageFault,
}

impl Exception {
    /// The exception a cause number names, among those the kernel knows.
    pub open spec fn spec_from(value: u64) -> Option<Exception> {
        if value == 1 {
            Some(Exception::InstructionAccessFault)
        } else if value == 2 {
            Some(Exception::IllegaInstruction)
        } else if value == 5 {
            Some(Exception::LoadAccessFault)
        } else if value == 9 {
            Some(Exception::EnvCallFromSMode)
        } else if value == 11 {
            Some(Exception::EnvCallFromMMode)
        } else {
            None
        }
    }

    /// Whether the kernel knows the exception with cause number `value`.
    pub fn is_known(value: u64) -> (r: bool)
        ensures
            r == Self::spec_from(value) is Some,
    {
        value == 1 || value == 2 || value == 5 || value == 9 || value == 11
    }

    /// Decodes a cause number the kernel knows; an unknown one is a fatal
    /// fault, which callers rule out first with `is_known`.
    pub fn from_usize(value: u64) -> (r: Exception)
        requires
            Self::spec_from(value) is Some,
        ensures
            Self::spec_from(value) == Some(r),
    {
        match value {
            1 => Exception::InstructionAccessFault,
            2 => Exception::IllegaInstruction,
            5 => Exception::LoadAccessFault,
            9 => Exception::EnvCallFromSMode,
            _ => Exception::EnvCallFromMMode,
        }
    }
}

} // verus!
