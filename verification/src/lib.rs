//! A bit-banging implementation of the I2C, SPI and UART bus protocols.
//!
//! Every bus transfer is described here as a *program*: the exact sequence of
//! line levels to drive, waits to insert and line samples to take. A
//! [`machine::Sequencer`] steps through such a program one pin action at a
//! time, deciding from each sampled level what happens next (acknowledge
//! checks, framing checks, waiting for a start bit). The code that owns the
//! GPIO pins performs each action and hands the sampled levels back.

pub mod bits;
pub mod delay;
pub mod machine;
pub mod i2c;
pub mod serial;
pub mod spi;
