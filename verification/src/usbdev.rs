//! The property keys under which `udevadm` reports what identifies a USB
//! serial device.

use vstd::prelude::*;

verus! {

/// The key of the vendor identifier, a hexadecimal number of four digits.
pub const VENDOR_ID: &'static str = "ID_VENDOR_ID";

/// The key of the model identifier, a hexadecimal number of four digits.
pub const MODEL_ID: &'static str = "ID_MODEL_ID";

/// The key of the serial port's number, a decimal number.
pub const TTY_NUM: &'static str = "MINOR";

} // verus!
