//! Writes to device ports, as values.

use vstd::prelude::*;

verus! {

/// One byte for one port.
#[derive(Clone, Copy, Debug, PartialEq, Eq, Structural)]
pub struct PortWrite {
    pub port: u16,
    pub value: u8,
}

/// A write as a value.
#[verifier::allow_in_spec]
pub fn write(port: u16, value: u8) -> PortWrite
    returns
        (PortWrite { port, value }),
{
    PortWrite { port, value }
}

} // verus!
