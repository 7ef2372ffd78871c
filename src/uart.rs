//! The serial port: the register writes that set it up and send a byte.
use vstd::prelude::*;

verus! {

/// The offset of the line control register.
pub const UART_LCR_REG: u64 = 3;

/// A write of one byte to a memory-mapped register.
#[derive(PartialEq, Eq, Structural, Clone, Copy, Debug)]
pub struct MmioWrite {
    pub addr: u64,
    pub value: u8,
}

/// A serial port at `base_address`.
#[derive(PartialEq, Eq, Structural, Clone, Copy, Debug)]
pub struct Uart {
    base_address: u64,
    set: bool,
}

impl Uart {
    pub closed spec fn base(&self) -> u64 {
        self.base_address
    }

    pub closed spec fn spec_is_set(&self) -> bool {
        self.set
    }

    /// A port at `base_address`, marked as set.
    pub fn new(base_address: u64) -> (r: Uart)
        ensures
            r.base() == base_address,
            r.spec_is_set(),
    {
        Uart { base_address, set: true }
    }

    /// The write that sets the port's line control register to zero.
    pub fn init(&self) -> (r: MmioWrite)
        requires
            self.base() + UART_LCR_REG <= u64::MAX,
        ensures
            r == (MmioWrite { addr: (self.base() + UART_LCR_REG) as u64, value: 0 }),
    {
        MmioWrite { addr: self.base_address + UART_LCR_REG, value: 0 }
    }

    /// The write that sends the byte `c`.
    pub fn put(&self, c: u8) -> (r: MmioWrite)
        ensures
            r == (MmioWrite { addr: self.base(), value: c }),
    {
        MmioWrite { addr: self.base_address, value: c }
    }

    /// Whether the port's address is set.
    pub fn is_set(&self) -> (r: bool)
        ensures
            r == self.spec_is_set(),
    {
        self.set
    }

    /// The port's base address.
    pub fn base_address(&self) -> (r: u64)
        ensures
            r == self.base(),
    {
        self.base_address
    }
}

} // verus!
