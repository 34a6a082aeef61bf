//! Delay providers that decide the bus timing.
//!
//! The actual bus speed is roughly `1 / (2 × (delay resolution + GPIO overhead))`.
//! [`NoopDelay`] does not wait at all; [`AsmDelay`] busy-waits a number of CPU
//! cycles that is never less than the requested time, as long as that count
//! fits in 32 bits (longer requests are truncated).

use vstd::prelude::*;

verus! {

/// Nanoseconds per second.
pub const NANOS_PER_SECOND: u64 = 1_000_000_000;

/// A delay provider that does not wait at all: every bus half-period collapses
/// to the GPIO and loop overhead.
#[derive(Debug, Default, Clone, Copy)]
pub struct NoopDelay;

impl NoopDelay {
    /// Create a no-op delay provider.
    pub fn new() -> (d: Self)
        ensures
            d == NoopDelay,
    {
        NoopDelay
    }
}

/// The number of whole CPU cycles that cover `ns` nanoseconds on a core
/// running at `cpu_hz`, rounded up.
pub open spec fn cycles_needed(ns: u32, cpu_hz: u32) -> int {
    let product = ns as int * cpu_hz as int;
    if product % (NANOS_PER_SECOND as int) == 0 {
        product / (NANOS_PER_SECOND as int)
    } else {
        product / (NANOS_PER_SECOND as int) + 1
    }
}

/// A delay provider that busy-waits on CPU cycles of a core running at
/// `cpu_hz`.
#[derive(Debug, Clone, Copy)]
pub struct AsmDelay {
    cpu_hz: u32,
}

impl AsmDelay {
    /// The core clock frequency this provider counts cycles of.
    pub closed spec fn spec_cpu_hz(&self) -> u32 {
        self.cpu_hz
    }

    /// Create a delay provider for a core running at `cpu_hz`.
    pub fn new(cpu_hz: u32) -> (d: Self)
        ensures
            d.spec_cpu_hz() == cpu_hz,
    {
        AsmDelay { cpu_hz }
    }

    /// The core clock frequency this provider counts cycles of.
    pub fn cpu_hz(&self) -> (hz: u32)
        ensures
            hz == self.spec_cpu_hz(),
    {
        self.cpu_hz
    }

    /// The cycle count to busy-wait for a delay of `ns` nanoseconds: the
    /// requested time in cycles rounded up, truncated to 32 bits. Whenever
    /// the rounded-up count fits, the wait covers the request.
    pub fn cycles(&self, ns: u32) -> (c: u32)
        ensures
            c as int == cycles_needed(ns, self.spec_cpu_hz()) % 0x1_0000_0000,
            ns as int * self.spec_cpu_hz() as int <= 0xffff_ffff * 1_000_000_000 ==> c as int
                == cycles_needed(ns, self.spec_cpu_hz()) && c as int * 1_000_000_000 >= ns as int
                * self.spec_cpu_hz() as int,
    {
        proof {
            lemma_cycles_cover_request(ns, self.cpu_hz);
            let p = ns as int * self.cpu_hz as int;
            if p <= 0xffff_ffff * 1_000_000_000 {
                assert(0 <= p / 1_000_000_000 <= 0xffff_ffff - 1 || p / 1_000_000_000 == 0xffff_ffff) by (nonlinear_arith)
                    requires
                        0 <= p <= 0xffff_ffff * 1_000_000_000,
                ;
                assert(p / 1_000_000_000 == 0xffff_ffff ==> p % 1_000_000_000 == 0) by (nonlinear_arith)
                    requires
                        0 <= p <= 0xffff_ffff * 1_000_000_000,
                ;
                assert(0 <= cycles_needed(ns, self.cpu_hz) <= 0xffff_ffff);
            }
        }
        let hz = self.cpu_hz;
        assert(ns as int * hz as int <= 0xffff_ffff * 0xffff_ffff) by (nonlinear_arith)
            requires
                ns <= 0xffff_ffff,
                hz <= 0xffff_ffff,
        ;
        let product: u64 = (ns as u64) * (hz as u64);
        let whole: u64 = product / NANOS_PER_SECOND;
        let rest: u64 = product % NANOS_PER_SECOND;
        let rounded: u64 = if rest == 0 {
            whole
        } else {
            whole + 1
        };
        (rounded % 0x1_0000_0000) as u32
    }
}

/// The cycle count is rounded up: `cycles_needed(ns, cpu_hz)` cycles last at
/// least `ns` nanoseconds, and one cycle fewer would not cover a nonzero
/// request.
pub proof fn lemma_cycles_cover_request(ns: u32, cpu_hz: u32)
    ensures
        cycles_needed(ns, cpu_hz) * (NANOS_PER_SECOND as int) >= ns as int * cpu_hz as int,
        (cycles_needed(ns, cpu_hz) - 1) * (NANOS_PER_SECOND as int) < ns as int * cpu_hz as int
            || ns as int * cpu_hz as int == 0,
{
    let p = ns as int * cpu_hz as int;
    let n = NANOS_PER_SECOND as int;
    assert(p >= 0) by (nonlinear_arith)
        requires
            p == ns as int * cpu_hz as int,
    ;
    assert(p == (p / n) * n + p % n) by (nonlinear_arith)
        requires
            n > 0,
    ;
}

/// Half the period of a clock of `frequency_hz`, in whole nanoseconds.
pub open spec fn half_period_for(frequency_hz: u32) -> int {
    1_000_000_000int / (2 * frequency_hz as int)
}

/// The half period rounds down: two half periods of `half_period_for(f)`
/// nanoseconds never exceed `1 / f` seconds, and the half period is the
/// largest whole number of nanoseconds for which that holds. GPIO and delay
/// overhead then stretch the real period beyond it.
pub proof fn lemma_half_period_never_faster(frequency_hz: u32)
    requires
        frequency_hz > 0,
    ensures
        2 * half_period_for(frequency_hz) * frequency_hz <= 1_000_000_000,
        1_000_000_000 < 2 * (half_period_for(frequency_hz) + 1) * frequency_hz,
{
    let d = 2 * frequency_hz as int;
    let q = half_period_for(frequency_hz);
    assert(q * d <= 1_000_000_000 < (q + 1) * d) by (nonlinear_arith)
        requires
            d > 0,
            q == 1_000_000_000int / d,
    ;
    assert(2 * q * frequency_hz == q * d) by (nonlinear_arith)
        requires
            d == 2 * frequency_hz as int,
    ;
    assert(2 * (q + 1) * frequency_hz == (q + 1) * d) by (nonlinear_arith)
        requires
            d == 2 * frequency_hz as int,
    ;
}

} // verus!
