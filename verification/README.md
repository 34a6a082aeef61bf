# bitbang-hal-ng

Bit-banged I2C, SPI and UART bus masters with machine-checked proofs.

`src/` is the verified library. Each bus (`i2c`, `spi`, `serial`) describes
every transfer as a *program*: the exact sequence of line levels to drive,
waits to insert and line samples to take, proved equal to a specification
of the bus protocol. `machine::Sequencer` steps through a program one pin
action at a time and takes every decision that depends on a sampled level
(acknowledge checks, stop-bit checks, waiting for a start bit). `bits`
assembles received bytes from the sampled levels. `delay` computes the
cycle counts of a busy-wait delay.

`app/` gives the buses their `embedded-hal` 1.0 (`I2c`, `SpiBus`,
`DelayNs`) and `embedded-io` (`Read`, `Write`) faces: it owns the GPIO pins,
performs the actions a sequencer hands out and returns the sampled levels.
