//! Serial Peripheral Interface: a full-duplex bus master on three lines.
//!
//! SCLK and MOSI are driven, MISO is sampled. Slave select must be handled
//! separately. All four SPI modes and both bit orders are supported. Every
//! byte takes eight bit slots; in each slot the outgoing bit is put on MOSI,
//! the clock makes one pulse away from its idle level and MISO is sampled at
//! the edge the mode's phase captures on. The bit order holds both ways: the
//! bits sampled in a byte's slots are assembled in the order the byte's own
//! bits go out.

use vstd::prelude::*;
use crate::bits::{
    bit, shift_in, lsb_first, shifted_bytes, placed_bytes, shift_in_bytes, lsb_first_bytes, lemma_shift_in_bits,
    lemma_lsb_first_bits, lemma_bits_determine_byte,
};
use crate::delay::half_period_for;
use crate::machine::{
    Instr, is_straight, sample_count, run_model, start_model, lemma_straight_program_runs,
    lemma_sample_count_concat, lemma_straight_concat,
};

verus! {

/// SPI bus error.
#[derive(Debug)]
pub enum Error<E> {
    /// A pin reported an error.
    Bus(E),
}

/// Transmission bit order.
#[derive(Debug, Default, Clone, Copy, PartialEq, Eq, Structural)]
pub enum BitOrder {
    /// Most significant bit first.
    #[default]
    MSBFirst,
    /// Least significant bit first.
    LSBFirst,
}

/// Level of the clock line while the bus is idle.
#[derive(Debug, Clone, Copy, PartialEq, Eq, Structural)]
pub enum Polarity {
    /// The clock idles low.
    IdleLow,
    /// The clock idles high.
    IdleHigh,
}

/// The clock edge on which data is captured.
#[derive(Debug, Clone, Copy, PartialEq, Eq, Structural)]
pub enum Phase {
    /// Data is captured on the edge away from the idle level.
    CaptureOnFirstTransition,
    /// Data is captured on the edge back to the idle level.
    CaptureOnSecondTransition,
}

/// An SPI mode: clock polarity and phase.
#[derive(Debug, Clone, Copy, PartialEq, Eq, Structural)]
pub struct Mode {
    /// Clock polarity.
    pub polarity: Polarity,
    /// Clock phase.
    pub phase: Phase,
}

impl Mode {
    /// Mode 0: clock idles low, data captured on the first transition.
    pub fn mode_0() -> (m: Mode)
        ensures
            m == (Mode { polarity: Polarity::IdleLow, phase: Phase::CaptureOnFirstTransition }),
    {
        Mode { polarity: Polarity::IdleLow, phase: Phase::CaptureOnFirstTransition }
    }

    /// Mode 1: clock idles low, data captured on the second transition.
    pub fn mode_1() -> (m: Mode)
        ensures
            m == (Mode { polarity: Polarity::IdleLow, phase: Phase::CaptureOnSecondTransition }),
    {
        Mode { polarity: Polarity::IdleLow, phase: Phase::CaptureOnSecondTransition }
    }

    /// Mode 2: clock idles high, data captured on the first transition.
    pub fn mode_2() -> (m: Mode)
        ensures
            m == (Mode { polarity: Polarity::IdleHigh, phase: Phase::CaptureOnFirstTransition }),
    {
        Mode { polarity: Polarity::IdleHigh, phase: Phase::CaptureOnFirstTransition }
    }

    /// Mode 3: clock idles high, data captured on the second transition.
    pub fn mode_3() -> (m: Mode)
        ensures
            m == (Mode { polarity: Polarity::IdleHigh, phase: Phase::CaptureOnSecondTransition }),
    {
        Mode { polarity: Polarity::IdleHigh, phase: Phase::CaptureOnSecondTransition }
    }
}

/// The lines of an SPI bus.
#[derive(Debug, Clone, Copy, PartialEq, Eq, Structural)]
pub enum SpiLine {
    /// The clock, driven.
    Sck,
    /// Master output, driven.
    Mosi,
    /// Master input, sampled.
    Miso,
}

/// Configuration of the SPI interface.
#[derive(Debug, Clone)]
pub struct SpiConfig {
    mode: Mode,
    bit_order: BitOrder,
    empty_write_value: u8,
    half_period_duration_ns: u32,
}

impl SpiConfig {
    /// The SPI mode.
    pub closed spec fn spec_mode(&self) -> Mode {
        self.mode
    }

    /// The bit order of outgoing bytes.
    pub closed spec fn spec_bit_order(&self) -> BitOrder {
        self.bit_order
    }

    /// The byte clocked out when more bytes are read than written.
    pub closed spec fn spec_empty_write_value(&self) -> u8 {
        self.empty_write_value
    }

    /// Half of the clock period, in nanoseconds.
    pub closed spec fn spec_half_period_ns(&self) -> u32 {
        self.half_period_duration_ns
    }

    /// The SPI mode.
    pub fn mode(&self) -> (m: Mode)
        ensures
            m == self.spec_mode(),
    {
        self.mode
    }

    /// The bit order of outgoing bytes.
    pub fn bit_order(&self) -> (o: BitOrder)
        ensures
            o == self.spec_bit_order(),
    {
        self.bit_order
    }

    /// The byte clocked out when more bytes are read than written.
    pub fn empty_write_value(&self) -> (v: u8)
        ensures
            v == self.spec_empty_write_value(),
    {
        self.empty_write_value
    }

    /// Half of the clock period, in nanoseconds.
    pub fn half_period_ns(&self) -> (ns: u32)
        ensures
            ns == self.spec_half_period_ns(),
    {
        self.half_period_duration_ns
    }

    /// A configuration with the given mode, MSB-first bit order, `0x00` as
    /// the empty write value and a 100 kHz clock (5000 ns half period).
    pub fn new(mode: Mode) -> (c: Self)
        ensures
            c.spec_mode() == mode,
            c.spec_bit_order() == BitOrder::MSBFirst,
            c.spec_empty_write_value() == 0,
            c.spec_half_period_ns() == 5_000,
    {
        SpiConfig {
            mode,
            bit_order: BitOrder::MSBFirst,
            empty_write_value: 0x00,
            half_period_duration_ns: 5_000,
        }
    }

    /// Set the transmission bit order.
    pub fn with_bit_order(self, bit_order: BitOrder) -> (c: Self)
        ensures
            c.spec_mode() == self.spec_mode(),
            c.spec_bit_order() == bit_order,
            c.spec_empty_write_value() == self.spec_empty_write_value(),
            c.spec_half_period_ns() == self.spec_half_period_ns(),
    {
        SpiConfig { bit_order, ..self }
    }

    /// Set the value clocked out on MOSI when reading without write data.
    pub fn with_empty_write_value(self, value: u8) -> (c: Self)
        ensures
            c.spec_mode() == self.spec_mode(),
            c.spec_bit_order() == self.spec_bit_order(),
            c.spec_empty_write_value() == value,
            c.spec_half_period_ns() == self.spec_half_period_ns(),
    {
        SpiConfig { empty_write_value: value, ..self }
    }

    /// Set the target clock frequency in Hz: the half period becomes
    /// `1_000_000_000 / (2 * frequency_hz)` nanoseconds.
    pub fn with_frequency_hz(self, frequency_hz: u32) -> (c: Self)
        requires
            0 < frequency_hz <= 0x7fff_ffff,
        ensures
            c.spec_mode() == self.spec_mode(),
            c.spec_bit_order() == self.spec_bit_order(),
            c.spec_empty_write_value() == self.spec_empty_write_value(),
            c.spec_half_period_ns() == half_period_for(frequency_hz),
    {
        SpiConfig { half_period_duration_ns: 1_000_000_000 / (2 * frequency_hz), ..self }
    }

    /// Set the half period of the clock signal in nanoseconds directly.
    pub fn with_half_period_ns(self, half_period_ns: u32) -> (c: Self)
        ensures
            c.spec_mode() == self.spec_mode(),
            c.spec_bit_order() == self.spec_bit_order(),
            c.spec_empty_write_value() == self.spec_empty_write_value(),
            c.spec_half_period_ns() == half_period_ns,
    {
        SpiConfig { half_period_duration_ns: half_period_ns, ..self }
    }
}

impl Default for SpiConfig {
    /// Mode 0, MSB first, 100 kHz clock.
    fn default() -> (c: Self)
        ensures
            c.spec_mode() == (Mode { polarity: Polarity::IdleLow, phase: Phase::CaptureOnFirstTransition }),
            c.spec_bit_order() == BitOrder::MSBFirst,
            c.spec_empty_write_value() == 0,
            c.spec_half_period_ns() == 5_000,
    {
        SpiConfig::new(Mode::mode_0())
    }
}

/// Whether the clock idles high in `mode`.
pub open spec fn idles_high(mode: Mode) -> bool {
    mode.polarity is IdleHigh
}

/// The outgoing bit of slot `k` (0..8) of the byte `b`.
pub open spec fn out_bit(order: BitOrder, b: u8, k: u8) -> bool {
    match order {
        BitOrder::MSBFirst => bit(b, (7 - k) as u8),
        BitOrder::LSBFirst => bit(b, k),
    }
}

/// The eight outgoing bits of the byte `b`, in the order they go out.
pub open spec fn outgoing_bits(order: BitOrder, b: u8) -> Seq<bool> {
    Seq::new(8, |k: int| out_bit(order, b, k as u8))
}

/// One bit slot: put `level` on MOSI, pulse the clock away from its idle
/// level and back, and sample MISO at the capturing edge.
pub open spec fn bit_slot(mode: Mode, level: bool, half_ns: u32) -> Seq<Instr<SpiLine>> {
    let active = !idles_high(mode);
    match mode.phase {
        Phase::CaptureOnFirstTransition => seq![
            Instr::Drive(SpiLine::Mosi, level),
            Instr::Wait(half_ns),
            Instr::Drive(SpiLine::Sck, active),
            Instr::Sample(SpiLine::Miso),
            Instr::Wait(half_ns),
            Instr::Drive(SpiLine::Sck, !active),
        ],
        Phase::CaptureOnSecondTransition => seq![
            Instr::Drive(SpiLine::Mosi, level),
            Instr::Drive(SpiLine::Sck, active),
            Instr::Wait(half_ns),
            Instr::Sample(SpiLine::Miso),
            Instr::Drive(SpiLine::Sck, !active),
            Instr::Wait(half_ns),
        ],
    }
}

/// The first `k` bit slots of the byte `b`.
pub open spec fn byte_slots(cfg: SpiConfig, b: u8, k: nat) -> Seq<Instr<SpiLine>>
    decreases k,
{
    if k == 0 {
        Seq::empty()
    } else {
        byte_slots(cfg, b, (k - 1) as nat) + bit_slot(
            cfg.spec_mode(),
            out_bit(cfg.spec_bit_order(), b, (k - 1) as u8),
            cfg.spec_half_period_ns(),
        )
    }
}

/// Exchanging one byte: clock out `b` while eight bits are sampled in.
pub open spec fn byte_frame(cfg: SpiConfig, b: u8) -> Seq<Instr<SpiLine>> {
    byte_slots(cfg, b, 8)
}

/// Exchanging the bytes `outs`, one after another.
pub open spec fn frames(cfg: SpiConfig, outs: Seq<u8>) -> Seq<Instr<SpiLine>>
    decreases outs.len(),
{
    if outs.len() == 0 {
        Seq::empty()
    } else {
        frames(cfg, outs.drop_last()) + byte_frame(cfg, outs.last())
    }
}

/// The bytes clocked out by a transfer: one per position up to the longer
/// of the two buffers, with `empty` where there is no write data.
pub open spec fn transfer_words(read_len: nat, write: Seq<u8>, empty: u8) -> Seq<u8> {
    let n = if read_len > write.len() {
        read_len
    } else {
        write.len()
    };
    Seq::new(n, |i: int| if i < write.len() { write[i] } else { empty })
}

/// A full-duplex SPI master on three lines and a delay provider.
pub struct SPI<Miso, Mosi, Sck, Delay> {
    miso: Miso,
    mosi: Mosi,
    sck: Sck,
    delay: Delay,
    config: SpiConfig,
}

impl<Miso, Mosi, Sck, Delay> SPI<Miso, Mosi, Sck, Delay> {
    /// The configuration of the bus.
    pub closed spec fn spec_config(&self) -> SpiConfig {
        self.config
    }

    /// The pins and the delay provider.
    pub closed spec fn spec_parts(&self) -> (Miso, Mosi, Sck, Delay) {
        (self.miso, self.mosi, self.sck, self.delay)
    }

    /// The configuration of the bus.
    pub fn config(&self) -> (c: &SpiConfig)
        ensures
            *c == self.spec_config(),
    {
        &self.config
    }

    /// Create an instance. The clock must then be driven to its idle level,
    /// as [`SPI::idle_program`] does.
    pub fn new(miso: Miso, mosi: Mosi, sck: Sck, delay: Delay, config: SpiConfig) -> (s: Self)
        ensures
            s.spec_config() == config,
            s.spec_parts() == (miso, mosi, sck, delay),
    {
        SPI { miso, mosi, sck, delay, config }
    }

    /// Release the pins and delay provider.
    pub fn free(self) -> (parts: (Miso, Mosi, Sck, Delay))
        ensures
            parts == self.spec_parts(),
    {
        (self.miso, self.mosi, self.sck, self.delay)
    }

    /// Borrow the pins and the delay provider.
    pub fn pins(&mut self) -> (parts: (&mut Miso, &mut Mosi, &mut Sck, &mut Delay))
        ensures
            (*parts.0, *parts.1, *parts.2, *parts.3) == old(self).spec_parts(),
            final(self).spec_config() == old(self).spec_config(),
            final(self).spec_parts() == (*final(parts.0), *final(parts.1), *final(parts.2), *final(parts.3)),
    {
        (&mut self.miso, &mut self.mosi, &mut self.sck, &mut self.delay)
    }

    /// Drive the clock to its idle level.
    pub fn idle_program(&self) -> (p: Vec<Instr<SpiLine>>)
        ensures
            p@ == seq![Instr::Drive(SpiLine::Sck, idles_high(self.spec_config().spec_mode()))],
    {
        let high = match self.config.mode.polarity {
            Polarity::IdleLow => false,
            Polarity::IdleHigh => true,
        };
        let mut p = Vec::new();
        p.push(Instr::Drive(SpiLine::Sck, high));
        p
    }

    fn push_bit_slot(&self, p: &mut Vec<Instr<SpiLine>>, level: bool)
        ensures
            final(p)@ == old(p)@ + bit_slot(
                self.spec_config().spec_mode(),
                level,
                self.spec_config().spec_half_period_ns(),
            ),
    {
        let half = self.config.half_period_duration_ns;
        let active = match self.config.mode.polarity {
            Polarity::IdleLow => true,
            Polarity::IdleHigh => false,
        };
        p.push(Instr::Drive(SpiLine::Mosi, level));
        match self.config.mode.phase {
            Phase::CaptureOnFirstTransition => {
                p.push(Instr::Wait(half));
                p.push(Instr::Drive(SpiLine::Sck, active));
                p.push(Instr::Sample(SpiLine::Miso));
                p.push(Instr::Wait(half));
                p.push(Instr::Drive(SpiLine::Sck, !active));
            },
            Phase::CaptureOnSecondTransition => {
                p.push(Instr::Drive(SpiLine::Sck, active));
                p.push(Instr::Wait(half));
                p.push(Instr::Sample(SpiLine::Miso));
                p.push(Instr::Drive(SpiLine::Sck, !active));
                p.push(Instr::Wait(half));
            },
        }
        assert(final(p)@ =~= old(p)@ + bit_slot(
            self.spec_config().spec_mode(),
            level,
            self.spec_config().spec_half_period_ns(),
        ));
    }

    /// Append the exchange of one byte: `clock_out` goes out in the
    /// configured bit order, eight bits are sampled in.
    fn push_byte(&self, p: &mut Vec<Instr<SpiLine>>, clock_out: u8)
        ensures
            final(p)@ == old(p)@ + byte_frame(self.spec_config(), clock_out),
    {
        let mut k: u8 = 0;
        while k < 8
            invariant
                k <= 8,
                p@ == old(p)@ + byte_slots(self.spec_config(), clock_out, k as nat),
            decreases 8 - k,
        {
            let out_bit = match self.config.bit_order {
                BitOrder::MSBFirst => (clock_out >> (7 - k)) & 0b1 == 1,
                BitOrder::LSBFirst => (clock_out >> k) & 0b1 == 1,
            };
            self.push_bit_slot(p, out_bit);
            k = k + 1;
            assert(p@ =~= old(p)@ + byte_slots(self.spec_config(), clock_out, k as nat));
        }
    }

    fn push_bytes(&self, p: &mut Vec<Instr<SpiLine>>, outs: &[u8])
        ensures
            final(p)@ == old(p)@ + frames(self.spec_config(), outs@),
    {
        let mut i: usize = 0;
        while i < outs.len()
            invariant
                i <= outs.len(),
                p@ == old(p)@ + frames(self.spec_config(), outs@.subrange(0, i as int)),
            decreases outs.len() - i,
        {
            self.push_byte(p, outs[i]);
            assert(outs@.subrange(0, i + 1).drop_last() =~= outs@.subrange(0, i as int));
            i = i + 1;
            assert(p@ =~= old(p)@ + frames(self.spec_config(), outs@.subrange(0, i as int)));
        }
        assert(outs@.subrange(0, outs.len() as int) =~= outs@);
    }

    /// Read `count` bytes: the empty write value is clocked out for each.
    pub fn read_program(&self, count: usize) -> (p: Vec<Instr<SpiLine>>)
        ensures
            p@ == frames(
                self.spec_config(),
                Seq::new(count as nat, |i: int| self.spec_config().spec_empty_write_value()),
            ),
    {
        let mut outs: Vec<u8> = Vec::new();
        let mut i: usize = 0;
        while i < count
            invariant
                i <= count,
                outs@ == Seq::new(i as nat, |j: int| self.spec_config().spec_empty_write_value()),
            decreases count - i,
        {
            outs.push(self.config.empty_write_value);
            i = i + 1;
            assert(outs@ =~= Seq::new(i as nat, |j: int| self.spec_config().spec_empty_write_value()));
        }
        let mut p = Vec::new();
        self.push_bytes(&mut p, outs.as_slice());
        assert(p@ =~= frames(
            self.spec_config(),
            Seq::new(count as nat, |i: int| self.spec_config().spec_empty_write_value()),
        ));
        p
    }

    /// Write `words`; what is sampled in meanwhile is of no use.
    pub fn write_program(&self, words: &[u8]) -> (p: Vec<Instr<SpiLine>>)
        ensures
            p@ == frames(self.spec_config(), words@),
    {
        let mut p = Vec::new();
        self.push_bytes(&mut p, words);
        assert(p@ =~= frames(self.spec_config(), words@));
        p
    }

    /// Transfer: clock out `write` and read into a buffer of `read_len` bytes;
    /// the shorter side is padded, with the empty write value on the write
    /// side and by dropping surplus bytes on the read side.
    pub fn transfer_program(&self, read_len: usize, write: &[u8]) -> (p: Vec<Instr<SpiLine>>)
        ensures
            p@ == frames(
                self.spec_config(),
                transfer_words(read_len as nat, write@, self.spec_config().spec_empty_write_value()),
            ),
    {
        let n = if read_len > write.len() {
            read_len
        } else {
            write.len()
        };
        let ghost words = transfer_words(
            read_len as nat,
            write@,
            self.spec_config().spec_empty_write_value(),
        );
        let mut outs: Vec<u8> = Vec::new();
        let mut i: usize = 0;
        while i < n
            invariant
                i <= n,
                n == words.len(),
                words == transfer_words(read_len as nat, write@, self.spec_config().spec_empty_write_value()),
                outs@ == words.subrange(0, i as int),
            decreases n - i,
        {
            let out = if i < write.len() {
                write[i]
            } else {
                self.config.empty_write_value
            };
            outs.push(out);
            i = i + 1;
            assert(outs@ =~= words.subrange(0, i as int));
        }
        assert(outs@ =~= words);
        let mut p = Vec::new();
        self.push_bytes(&mut p, outs.as_slice());
        assert(p@ =~= frames(self.spec_config(), words));
        p
    }

    /// Transfer in place: clock out `words`; the byte read in each slot
    /// replaces the byte sent in it.
    pub fn transfer_in_place_program(&self, words: &[u8]) -> (p: Vec<Instr<SpiLine>>)
        ensures
            p@ == frames(self.spec_config(), words@),
    {
        self.write_program(words)
    }
}

/// The `count` bytes received in a given bit order from `levels`: each
/// byte from its eight consecutive samples, the first one the most
/// significant bit for [`BitOrder::MSBFirst`] and the least significant for
/// [`BitOrder::LSBFirst`].
pub open spec fn received_bytes(levels: Seq<bool>, count: nat, order: BitOrder) -> Seq<u8> {
    match order {
        BitOrder::MSBFirst => shifted_bytes(levels, count),
        BitOrder::LSBFirst => placed_bytes(levels, count),
    }
}

/// The `count` bytes received by a program of `count` byte exchanges, from
/// the levels it sampled, assembled in the bit order `order`: sample `k` of
/// a byte's slots is its bit `7 - k` under MSB-first and its bit `k` under
/// LSB-first.
pub fn received(samples: &Vec<bool>, count: usize, order: BitOrder) -> (bytes: Vec<u8>)
    requires
        8 * count <= samples.len(),
    ensures
        bytes@ == received_bytes(samples@, count as nat, order),
        forall|j: int| 0 <= j < count ==> #[trigger] bytes@[j] == (match order {
            BitOrder::MSBFirst => shift_in(samples@.subrange(8 * j, 8 * j + 8)),
            BitOrder::LSBFirst => lsb_first(samples@.subrange(8 * j, 8 * j + 8)),
        }),
{
    match order {
        BitOrder::MSBFirst => shift_in_bytes(samples, count),
        BitOrder::LSBFirst => lsb_first_bytes(samples, count),
    }
}

/// The slots of a byte stand one after another: slot `k` of the frame of
/// `b` is the bit slot of the `k`-th outgoing bit, six instructions long.
pub proof fn lemma_byte_slots_layout(cfg: SpiConfig, b: u8, k: nat)
    requires
        k <= 8,
    ensures
        byte_slots(cfg, b, k).len() == 6 * k,
        forall|m: int, j: int|
            0 <= m < k && 0 <= j < 6 ==> #[trigger] byte_slots(cfg, b, k)[6 * m + j] == bit_slot(
                cfg.spec_mode(),
                out_bit(cfg.spec_bit_order(), b, m as u8),
                cfg.spec_half_period_ns(),
            )[j],
    decreases k,
{
    if k > 0 {
        lemma_byte_slots_layout(cfg, b, (k - 1) as nat);
        let prev = byte_slots(cfg, b, (k - 1) as nat);
        let slot = bit_slot(
            cfg.spec_mode(),
            out_bit(cfg.spec_bit_order(), b, (k - 1) as u8),
            cfg.spec_half_period_ns(),
        );
        assert(slot.len() == 6);
        assert forall|m: int, j: int| 0 <= m < k && 0 <= j < 6 implies #[trigger] byte_slots(
            cfg,
            b,
            k,
        )[6 * m + j] == bit_slot(
            cfg.spec_mode(),
            out_bit(cfg.spec_bit_order(), b, m as u8),
            cfg.spec_half_period_ns(),
        )[j] by {
            if m < k - 1 {
                assert(byte_slots(cfg, b, k)[6 * m + j] == prev[6 * m + j]);
            } else {
                assert(byte_slots(cfg, b, k)[6 * m + j] == slot[j]);
            }
        }
    }
}

/// Every byte takes 48 instructions; in its slot `k` the `k`-th outgoing
/// bit is put on MOSI first and MISO is sampled fourth, and the slot holds
/// no other read.
pub proof fn lemma_byte_frame_layout(cfg: SpiConfig, b: u8)
    ensures
        byte_frame(cfg, b).len() == 48,
        forall|k: int|
            0 <= k < 8 ==> #[trigger] byte_frame(cfg, b)[6 * k] == Instr::Drive(
                SpiLine::Mosi,
                out_bit(cfg.spec_bit_order(), b, k as u8),
            ),
        forall|k: int| 0 <= k < 8 ==> #[trigger] byte_frame(cfg, b)[6 * k + 3] == Instr::Sample(SpiLine::Miso),
        forall|k: int, j: int|
            0 <= k < 8 && 0 <= j < 6 && j != 3 ==> !(#[trigger] byte_frame(cfg, b)[6 * k + j] is Sample),
{
    lemma_byte_slots_layout(cfg, b, 8);
    assert forall|k: int| 0 <= k < 8 implies #[trigger] byte_frame(cfg, b)[6 * k] == Instr::Drive(
        SpiLine::Mosi,
        out_bit(cfg.spec_bit_order(), b, k as u8),
    ) by {
        assert(byte_frame(cfg, b)[6 * k + 0] == bit_slot(
            cfg.spec_mode(),
            out_bit(cfg.spec_bit_order(), b, k as u8),
            cfg.spec_half_period_ns(),
        )[0]);
    }
    assert forall|k: int| 0 <= k < 8 implies #[trigger] byte_frame(cfg, b)[6 * k + 3] == Instr::Sample(
        SpiLine::Miso,
    ) by {
        assert(byte_frame(cfg, b)[6 * k + 3] == bit_slot(
            cfg.spec_mode(),
            out_bit(cfg.spec_bit_order(), b, k as u8),
            cfg.spec_half_period_ns(),
        )[3]);
    }
    assert forall|k: int, j: int| 0 <= k < 8 && 0 <= j < 6 && j != 3 implies !(
    #[trigger] byte_frame(cfg, b)[6 * k + j] is Sample) by {
        assert(byte_frame(cfg, b)[6 * k + j] == bit_slot(
            cfg.spec_mode(),
            out_bit(cfg.spec_bit_order(), b, k as u8),
            cfg.spec_half_period_ns(),
        )[j]);
    }
}

/// The exchanges of consecutive bytes stand one after another, 48
/// instructions each.
pub proof fn lemma_frames_layout(cfg: SpiConfig, outs: Seq<u8>)
    ensures
        frames(cfg, outs).len() == 48 * outs.len(),
        forall|i: int, t: int|
            0 <= i < outs.len() && 0 <= t < 48 ==> #[trigger] frames(cfg, outs)[48 * i + t]
                == byte_frame(cfg, outs[i])[t],
    decreases outs.len(),
{
    if outs.len() > 0 {
        let prefix = outs.drop_last();
        lemma_frames_layout(cfg, prefix);
        lemma_byte_frame_layout(cfg, outs.last());
        assert forall|i: int, t: int| 0 <= i < outs.len() && 0 <= t < 48 implies #[trigger] frames(
            cfg,
            outs,
        )[48 * i + t] == byte_frame(cfg, outs[i])[t] by {
            if i < outs.len() - 1 {
                assert(frames(cfg, outs)[48 * i + t] == frames(cfg, prefix)[48 * i + t]);
                assert(prefix[i] == outs[i]);
            } else {
                assert(frames(cfg, outs)[48 * i + t] == byte_frame(cfg, outs.last())[t]);
            }
        }
    }
}

/// Loopback: with MISO tied to MOSI, each slot samples the bit just put
/// out, and the byte assembled in the same bit order is the byte sent.
pub proof fn lemma_loopback(order: BitOrder, b: u8)
    ensures
        order is MSBFirst ==> shift_in(outgoing_bits(order, b)) == b,
        order is LSBFirst ==> lsb_first(outgoing_bits(order, b)) == b,
{
    let levels = outgoing_bits(order, b);
    if order is MSBFirst {
        lemma_shift_in_bits(levels);
        let r = shift_in(levels);
        assert forall|k: u8| k < 8 implies bit(r, k) == bit(b, k) by {
            let i = 7 - k;
            assert(bit(r, (levels.len() - 1 - i) as u8) == levels[i]);
        }
        lemma_bits_determine_byte(r, b);
    } else {
        lemma_lsb_first_bits(levels);
        let r = lsb_first(levels);
        assert forall|k: u8| k < 8 implies bit(r, k) == bit(b, k) by {
            assert(bit(r, k as int as u8) == levels[k as int]);
        }
        lemma_bits_determine_byte(r, b);
    }
}

proof fn lemma_bit_slot_straight(mode: Mode, level: bool, half_ns: u32)
    ensures
        is_straight(bit_slot(mode, level, half_ns)),
        sample_count(bit_slot(mode, level, half_ns)) == 1,
{
    reveal_with_fuel(crate::machine::samples_from, 7);
    let s = bit_slot(mode, level, half_ns);
    assert(s.len() == 6);
}

proof fn lemma_byte_slots_straight(cfg: SpiConfig, b: u8, k: nat)
    ensures
        is_straight(byte_slots(cfg, b, k)),
        sample_count(byte_slots(cfg, b, k)) == k,
    decreases k,
{
    if k == 0 {
        assert(sample_count(byte_slots(cfg, b, 0)) == 0);
    } else {
        let prev = byte_slots(cfg, b, (k - 1) as nat);
        let slot = bit_slot(
            cfg.spec_mode(),
            out_bit(cfg.spec_bit_order(), b, (k - 1) as u8),
            cfg.spec_half_period_ns(),
        );
        lemma_byte_slots_straight(cfg, b, (k - 1) as nat);
        lemma_bit_slot_straight(
            cfg.spec_mode(),
            out_bit(cfg.spec_bit_order(), b, (k - 1) as u8),
            cfg.spec_half_period_ns(),
        );
        lemma_sample_count_concat(prev, slot);
        lemma_straight_concat(prev, slot);
    }
}

proof fn lemma_frames_straight(cfg: SpiConfig, outs: Seq<u8>)
    ensures
        is_straight(frames(cfg, outs)),
        sample_count(frames(cfg, outs)) == 8 * outs.len(),
    decreases outs.len(),
{
    if outs.len() == 0 {
        assert(sample_count(frames(cfg, outs)) == 0);
    } else {
        lemma_frames_straight(cfg, outs.drop_last());
        lemma_byte_slots_straight(cfg, outs.last(), 8);
        lemma_sample_count_concat(frames(cfg, outs.drop_last()), byte_frame(cfg, outs.last()));
        lemma_straight_concat(frames(cfg, outs.drop_last()), byte_frame(cfg, outs.last()));
    }
}

/// The levels a loopback (MISO tied to MOSI) answers the reads of the
/// exchange of `outs` with: the outgoing bits, byte after byte.
pub open spec fn loopback_answers(order: BitOrder, outs: Seq<u8>) -> Seq<bool> {
    Seq::new(8 * outs.len(), |t: int| out_bit(order, outs[t / 8], (t % 8) as u8))
}

/// What a read gives back of a write, on a loopback. Exchanging `outs`
/// takes `8 * outs.len()` samples, the `t`-th in slot `t % 8` of byte
/// `t / 8`, right after that slot put the bit `loopback_answers[t]` on MOSI.
/// Run with those levels as the answers, the program ends without fault,
/// records exactly them, and the bytes received in the configured bit order
/// are `outs`.
pub proof fn lemma_exchange_loopback(cfg: SpiConfig, outs: Seq<u8>)
    ensures
        is_straight(frames(cfg, outs)),
        sample_count(frames(cfg, outs)) == 8 * outs.len(),
        forall|t: int|
            0 <= t < 8 * outs.len() ==> #[trigger] frames(cfg, outs)[48 * (t / 8) + 6 * (t % 8)] == Instr::Drive(
                SpiLine::Mosi,
                loopback_answers(cfg.spec_bit_order(), outs)[t],
            ) && frames(cfg, outs)[48 * (t / 8) + 6 * (t % 8) + 3] == Instr::Sample(SpiLine::Miso),
        ({
            let p = frames(cfg, outs);
            let r = run_model(start_model(p), loopback_answers(cfg.spec_bit_order(), outs), p.len());
            &&& r.pc == p.len()
            &&& r.fault is None
            &&& r.samples == loopback_answers(cfg.spec_bit_order(), outs)
        }),
        received_bytes(loopback_answers(cfg.spec_bit_order(), outs), outs.len(), cfg.spec_bit_order()) == outs,
{
    let order = cfg.spec_bit_order();
    let answers = loopback_answers(order, outs);
    let p = frames(cfg, outs);
    lemma_frames_straight(cfg, outs);
    lemma_straight_program_runs(p, answers);
    lemma_frames_layout(cfg, outs);
    assert forall|t: int| 0 <= t < 8 * outs.len() implies #[trigger] p[48 * (t / 8) + 6 * (t % 8)]
        == Instr::Drive(SpiLine::Mosi, answers[t]) && p[48 * (t / 8) + 6 * (t % 8) + 3] == Instr::Sample(
        SpiLine::Miso,
    ) by {
        let j = t / 8;
        let k = t % 8;
        assert(0 <= j < outs.len() && 0 <= k < 8) by (nonlinear_arith)
            requires
                0 <= t < 8 * outs.len(),
                j == t / 8,
                k == t % 8,
        ;
        lemma_byte_frame_layout(cfg, outs[j]);
        assert(p[48 * j + 6 * k] == byte_frame(cfg, outs[j])[6 * k]);
        assert(p[48 * j + (6 * k + 3)] == byte_frame(cfg, outs[j])[6 * k + 3]);
    }
    {
        let got = received_bytes(answers, outs.len(), order);
        assert forall|j: int| 0 <= j < outs.len() implies got[j] == outs[j] by {
            let window = answers.subrange(8 * j, 8 * j + 8);
            assert forall|k: int| 0 <= k < 8 implies window[k] == outgoing_bits(order, outs[j])[k] by {
                assert((8 * j + k) / 8 == j && (8 * j + k) % 8 == k) by (nonlinear_arith)
                    requires
                        0 <= k < 8,
                        0 <= j,
                ;
                assert(8 * j + k < 8 * outs.len()) by (nonlinear_arith)
                    requires
                        0 <= k < 8,
                        0 <= j < outs.len(),
                ;
            }
            assert(window =~= outgoing_bits(order, outs[j]));
            lemma_loopback(order, outs[j]);
        }
        assert(got =~= outs);
    }
}

/// The level of SCK just before instruction `i` of `s` (true for high),
/// when it was at `init` before the first.
pub open spec fn sck_before(s: Seq<Instr<SpiLine>>, i: int, init: bool) -> bool
    decreases i,
{
    if i <= 0 {
        init
    } else {
        match s[i - 1] {
            Instr::Drive(SpiLine::Sck, high) => high,
            _ => sck_before(s, i - 1, init),
        }
    }
}

/// The clock of one bit slot, in every mode: starting from the idle level,
/// the slot puts its bit on MOSI first, samples MISO exactly once, while the
/// clock is away from its idle level, and ends with the clock back at idle.
/// Each wait of the slot is one half period; one of them passes with the
/// clock away from idle and one with it at idle. With capture on the first
/// transition MISO is sampled right at the edge away from idle; with capture
/// on the second, right before the edge back.
pub proof fn lemma_bit_slot_clock(mode: Mode, level: bool, half_ns: u32)
    ensures
        ({
            let s = bit_slot(mode, level, half_ns);
            let idle = idles_high(mode);
            &&& s.len() == 6
            &&& s[0] == Instr::Drive(SpiLine::Mosi, level)
            &&& forall|j: int| 0 <= j < 6 && #[trigger] s[j] is Sample ==> j == 3
            &&& s[3] == Instr::Sample(SpiLine::Miso)
            &&& sck_before(s, 3, idle) == !idle
            &&& sck_before(s, 6, idle) == idle
            &&& forall|j: int| 0 <= j < 6 && #[trigger] s[j] is Wait ==> s[j] == Instr::<SpiLine>::Wait(half_ns)
            &&& exists|j: int| 0 <= j < 6 && #[trigger] s[j] is Wait && sck_before(s, j, idle) == !idle
            &&& exists|j: int| 0 <= j < 6 && #[trigger] s[j] is Wait && sck_before(s, j, idle) == idle
            &&& mode.phase is CaptureOnFirstTransition ==> s[2] == Instr::Drive(SpiLine::Sck, !idle)
            &&& mode.phase is CaptureOnSecondTransition ==> s[4] == Instr::Drive(SpiLine::Sck, idle)
        }),
{
    reveal_with_fuel(sck_before, 7);
    let s = bit_slot(mode, level, half_ns);
    let idle = idles_high(mode);
    if mode.phase is CaptureOnFirstTransition {
        assert(s[4] is Wait && sck_before(s, 4, idle) == !idle);
        assert(s[1] is Wait && sck_before(s, 1, idle) == idle);
    } else {
        assert(s[2] is Wait && sck_before(s, 2, idle) == !idle);
        assert(s[5] is Wait && sck_before(s, 5, idle) == idle);
    }
}

/// A transfer exchanges one byte per position up to the longer of its two
/// buffers: it is 48 instructions per byte, and the byte clocked out at
/// position `i` is `write[i]` where there is one and the empty write value
/// after that, its bits on MOSI in the configured order with MISO sampled
/// in every slot.
pub proof fn lemma_transfer_exchanges_longer_side(cfg: SpiConfig, read_len: nat, write: Seq<u8>)
    ensures
        ({
            let n = if read_len > write.len() {
                read_len
            } else {
                write.len()
            };
            let p = frames(cfg, transfer_words(read_len, write, cfg.spec_empty_write_value()));
            &&& p.len() == 48 * n
            &&& forall|i: int, k: int|
                0 <= i < n && 0 <= k < 8 ==> {
                    let b = if i < write.len() {
                        write[i]
                    } else {
                        cfg.spec_empty_write_value()
                    };
                    &&& #[trigger] p[48 * i + 6 * k] == Instr::Drive(
                        SpiLine::Mosi,
                        match cfg.spec_bit_order() {
                            BitOrder::MSBFirst => bit(b, (7 - k) as u8),
                            BitOrder::LSBFirst => bit(b, k as u8),
                        },
                    )
                    &&& p[48 * i + 6 * k + 3] == Instr::Sample(SpiLine::Miso)
                }
        }),
{
    let words = transfer_words(read_len, write, cfg.spec_empty_write_value());
    let p = frames(cfg, words);
    lemma_frames_layout(cfg, words);
    assert forall|i: int, k: int| 0 <= i < words.len() && 0 <= k < 8 implies {
        let b = if i < write.len() {
            write[i]
        } else {
            cfg.spec_empty_write_value()
        };
        &&& #[trigger] p[48 * i + 6 * k] == Instr::Drive(
            SpiLine::Mosi,
            match cfg.spec_bit_order() {
                BitOrder::MSBFirst => bit(b, (7 - k) as u8),
                BitOrder::LSBFirst => bit(b, k as u8),
            },
        )
        &&& p[48 * i + 6 * k + 3] == Instr::Sample(SpiLine::Miso)
    } by {
        lemma_byte_frame_layout(cfg, words[i]);
        assert(p[48 * i + 6 * k] == byte_frame(cfg, words[i])[6 * k]);
        assert(p[48 * i + (6 * k + 3)] == byte_frame(cfg, words[i])[6 * k + 3]);
    }
}

} // verus!
