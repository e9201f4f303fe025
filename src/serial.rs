//! Configuration of vmbus serial ports.

use vstd::prelude::*;

verus! {

/// The port identity. This corresponds to different specific vmbus
/// instance IDs.
#[derive(Clone, Copy, Debug, PartialEq, Eq, Structural)]
pub enum VmbusSerialPort {
    /// A device to reemulate as "COM1".
    Com1,
    /// A device to reemulate as "COM2".
    Com2,
}

} // verus!
