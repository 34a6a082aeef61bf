//! I2C bus master on two open-drain lines (no clock stretching).
//!
//! Bytes go out most significant bit first; after each byte the slave's
//! acknowledge is sampled and a missing acknowledge ends the transfer with
//! [`Error::NoAck`]. Read bytes are acknowledged by the master, except the
//! last byte of a run of consecutive reads, which is not.

use vstd::prelude::*;
use crate::bits::{bit, shifted_bytes, shift_in_bytes};
use crate::delay::half_period_for;
use crate::machine::{
    Action, Fault, Instr, SeqModel, sample_count, lemma_sample_count_concat, is_acked_kind, checks_follow_samples,
    acked_answers, lemma_acked_program_runs, run_model, start_model, next_model, deliver_model,
    straight_between, samples_between, lemma_run_straight_stretch, lemma_samples_between_none,
};

verus! {

/// I2C error.
#[derive(Debug, PartialEq, Eq)]
pub enum Error<E> {
    /// A pin reported an error.
    Bus(E),
    /// No acknowledge received.
    NoAck,
}

/// The lines of an I2C bus.
#[derive(Debug, Clone, Copy, PartialEq, Eq, Structural)]
pub enum I2cLine {
    /// The clock.
    Scl,
    /// The data line, driven and sampled.
    Sda,
}

/// One operation of a transaction.
#[derive(Debug, Clone, PartialEq, Eq)]
pub enum Operation {
    /// Read this many bytes.
    Read(usize),
    /// Write these bytes.
    Write(Vec<u8>),
}

/// Whether the operation reads.
pub open spec fn op_reads(op: Operation) -> bool {
    op is Read
}

/// A (repeated) START condition: SDA is released while SCL is low, then
/// falls while SCL is high.
pub open spec fn start_seq(h: u32) -> Seq<Instr<I2cLine>> {
    seq![
        Instr::Drive(I2cLine::Sda, true),
        Instr::Wait(h),
        Instr::Drive(I2cLine::Scl, true),
        Instr::Wait(h),
        Instr::Drive(I2cLine::Sda, false),
        Instr::Wait(h),
        Instr::Drive(I2cLine::Scl, false),
        Instr::Wait(h),
    ]
}

/// A STOP condition: SDA rises while SCL is high.
pub open spec fn stop_seq(h: u32) -> Seq<Instr<I2cLine>> {
    seq![
        Instr::Drive(I2cLine::Sda, false),
        Instr::Wait(h),
        Instr::Drive(I2cLine::Scl, true),
        Instr::Wait(h),
        Instr::Drive(I2cLine::Sda, true),
        Instr::Wait(h),
    ]
}

/// The acknowledge slot after a written byte: SDA is released, SCL pulsed,
/// and the transfer stops unless the slave held SDA low.
pub open spec fn ack_seq(h: u32) -> Seq<Instr<I2cLine>> {
    seq![
        Instr::Drive(I2cLine::Sda, true),
        Instr::Drive(I2cLine::Scl, true),
        Instr::Wait(h),
        Instr::SampleAck(I2cLine::Sda),
        Instr::Drive(I2cLine::Scl, false),
        Instr::Drive(I2cLine::Sda, false),
        Instr::Wait(h),
        Instr::RequireAck,
    ]
}

/// One written bit: SDA is set while SCL is low, then SCL is pulsed.
pub open spec fn write_bit_seq(level: bool, h: u32) -> Seq<Instr<I2cLine>> {
    seq![
        Instr::Drive(I2cLine::Sda, level),
        Instr::Drive(I2cLine::Scl, true),
        Instr::Wait(h),
        Instr::Drive(I2cLine::Scl, false),
        Instr::Drive(I2cLine::Sda, false),
        Instr::Wait(h),
    ]
}

/// The first `k` written bits of `b`, most significant first.
pub open spec fn write_bits(b: u8, h: u32, k: nat) -> Seq<Instr<I2cLine>>
    decreases k,
{
    if k == 0 {
        Seq::empty()
    } else {
        write_bits(b, h, (k - 1) as nat) + write_bit_seq(bit(b, (8 - k) as u8), h)
    }
}

/// Writing the byte `b`, without its acknowledge slot.
pub open spec fn write_byte_seq(b: u8, h: u32) -> Seq<Instr<I2cLine>> {
    write_bits(b, h, 8)
}

/// Writing `bytes`, each followed by its acknowledge slot.
pub open spec fn write_bytes_seq(bytes: Seq<u8>, h: u32) -> Seq<Instr<I2cLine>>
    decreases bytes.len(),
{
    if bytes.len() == 0 {
        Seq::empty()
    } else {
        write_bytes_seq(bytes.drop_last(), h) + write_byte_seq(bytes.last(), h) + ack_seq(h)
    }
}

/// One read bit: SCL high, sample SDA, SCL low.
pub open spec fn read_bit_seq(h: u32) -> Seq<Instr<I2cLine>> {
    seq![
        Instr::Drive(I2cLine::Scl, true),
        Instr::Wait(h),
        Instr::Sample(I2cLine::Sda),
        Instr::Drive(I2cLine::Scl, false),
        Instr::Wait(h),
    ]
}

/// The first `k` read bits of a byte.
pub open spec fn read_bits(h: u32, k: nat) -> Seq<Instr<I2cLine>>
    decreases k,
{
    if k == 0 {
        Seq::empty()
    } else {
        read_bits(h, (k - 1) as nat) + read_bit_seq(h)
    }
}

/// The master's acknowledge slot after a read byte: SDA low to acknowledge
/// (`ack`) or released to not, one SCL pulse, then SDA low.
pub open spec fn master_ack_seq(ack: bool, h: u32) -> Seq<Instr<I2cLine>> {
    seq![
        Instr::Drive(I2cLine::Sda, !ack),
        Instr::Drive(I2cLine::Scl, true),
        Instr::Wait(h),
        Instr::Drive(I2cLine::Scl, false),
        Instr::Drive(I2cLine::Sda, false),
        Instr::Wait(h),
    ]
}

/// Reading one byte, then acknowledging it (`ack`) or not.
pub open spec fn read_byte_seq(ack: bool, h: u32) -> Seq<Instr<I2cLine>> {
    seq![Instr::Drive(I2cLine::Sda, true)] + read_bits(h, 8) + master_ack_seq(ack, h)
}

/// Whether byte `j` of a read of `n` bytes is acknowledged: all are, except
/// the last one when `nack_last`.
pub open spec fn read_ack(n: nat, nack_last: bool, j: nat) -> bool {
    !(nack_last && j == n - 1)
}

/// Reading the first `k` bytes of a read of `n` bytes.
pub open spec fn read_bytes_seq(n: nat, nack_last: bool, h: u32, k: nat) -> Seq<Instr<I2cLine>>
    decreases k,
{
    if k == 0 {
        Seq::empty()
    } else {
        read_bytes_seq(n, nack_last, h, (k - 1) as nat) + read_byte_seq(
            read_ack(n, nack_last, (k - 1) as nat),
            h,
        )
    }
}

/// The address byte: the 7-bit address followed by the read flag.
pub open spec fn address_byte(addr: u8, read: bool) -> u8 {
    (addr << 1u8) | (if read {
        1u8
    } else {
        0u8
    })
}

/// Whether operation `i` needs a (repeated) START and address byte: the
/// first operation does, and so does every change of direction.
pub open spec fn header_needed(ops: Seq<Operation>, i: int) -> bool {
    i == 0 || op_reads(ops[i - 1]) != op_reads(ops[i])
}

/// Whether some operation from `j` on, before the run of reads that
/// reaches `j` ends at a write or at the end, reads at least one byte.
pub open spec fn run_reads_more(ops: Seq<Operation>, j: int) -> bool
    decreases ops.len() - j,
{
    if j < 0 || j >= ops.len() {
        false
    } else {
        match ops[j] {
            Operation::Write(_) => false,
            Operation::Read(n) => n > 0 || run_reads_more(ops, j + 1),
        }
    }
}

/// Whether the last byte of operation `i` is not acknowledged: true unless
/// a later operation of the same run of reads still reads a byte, so that
/// only the very last byte read in a run of reads goes unacknowledged.
pub open spec fn nack_last(ops: Seq<Operation>, i: int) -> bool {
    !run_reads_more(ops, i + 1)
}

/// The data phase of operation `i`.
pub open spec fn data_seq(ops: Seq<Operation>, i: int, h: u32) -> Seq<Instr<I2cLine>> {
    match ops[i] {
        Operation::Read(n) => read_bytes_seq(n as nat, nack_last(ops, i), h, n as nat),
        Operation::Write(bytes) => write_bytes_seq(bytes@, h),
    }
}

/// The START, address byte and acknowledge slot that open a transaction.
pub open spec fn header_seq(addr: u8, read: bool, h: u32) -> Seq<Instr<I2cLine>> {
    start_seq(h) + write_byte_seq(address_byte(addr, read), h) + ack_seq(h)
}

/// Operation `i` of a transaction with the slave at `addr`.
pub open spec fn op_seq(addr: u8, ops: Seq<Operation>, i: int, h: u32) -> Seq<Instr<I2cLine>> {
    (if header_needed(ops, i) {
        header_seq(addr, op_reads(ops[i]), h)
    } else {
        Seq::empty()
    }) + data_seq(ops, i, h)
}

/// The first `k` operations of a transaction.
pub open spec fn ops_seq(addr: u8, ops: Seq<Operation>, h: u32, k: nat) -> Seq<Instr<I2cLine>>
    decreases k,
{
    if k == 0 {
        Seq::empty()
    } else {
        ops_seq(addr, ops, h, (k - 1) as nat) + op_seq(addr, ops, k - 1, h)
    }
}

/// A transaction: nothing at all for no operations; otherwise the
/// operations in order, and a STOP at the end.
pub open spec fn transaction_seq(addr: u8, ops: Seq<Operation>, h: u32) -> Seq<Instr<I2cLine>> {
    if ops.len() == 0 {
        Seq::empty()
    } else {
        ops_seq(addr, ops, h, ops.len()) + stop_seq(h)
    }
}

/// Whether an operation from `from` on, within the run of reads that
/// reaches it, still reads a byte.
fn reads_more_in_run(operations: &[Operation], from: usize) -> (more: bool)
    ensures
        more == run_reads_more(operations@, from as int),
{
    let mut j = from;
    while j < operations.len()
        invariant
            from <= j,
            run_reads_more(operations@, from as int) == run_reads_more(operations@, j as int),
        decreases operations.len() - j,
    {
        match &operations[j] {
            Operation::Write(_) => return false,
            Operation::Read(n) => {
                if *n > 0 {
                    return true;
                }
            },
        }
        j = j + 1;
    }
    false
}

/// A bit-banging I2C master on a clock pin, a data pin and a delay provider.
pub struct I2cBB<SCL, SDA, Delay> {
    scl: SCL,
    sda: SDA,
    delay: Delay,
    half_period_ns: u32,
}

impl<SCL, SDA, Delay> I2cBB<SCL, SDA, Delay> {
    /// Half of the clock period, in nanoseconds.
    pub closed spec fn spec_half_period_ns(&self) -> u32 {
        self.half_period_ns
    }

    /// The pins and the delay provider.
    pub closed spec fn spec_parts(&self) -> (SCL, SDA, Delay) {
        (self.scl, self.sda, self.delay)
    }

    /// Half of the clock period, in nanoseconds.
    pub fn half_period_ns(&self) -> (ns: u32)
        ensures
            ns == self.spec_half_period_ns(),
    {
        self.half_period_ns
    }

    /// Create an instance with the given clock frequency in Hz (e.g.
    /// `100_000` for a 100 kHz bus); half a clock period lasts
    /// `1_000_000_000 / (2 * frequency_hz)` nanoseconds.
    pub fn new(scl: SCL, sda: SDA, delay: Delay, frequency_hz: u32) -> (i: Self)
        requires
            0 < frequency_hz <= 0x7fff_ffff,
        ensures
            i.spec_half_period_ns() == half_period_for(frequency_hz),
            i.spec_parts() == (scl, sda, delay),
    {
        I2cBB { scl, sda, delay, half_period_ns: 1_000_000_000 / (2 * frequency_hz) }
    }

    /// Release the pins and delay provider.
    pub fn free(self) -> (parts: (SCL, SDA, Delay))
        ensures
            parts == self.spec_parts(),
    {
        (self.scl, self.sda, self.delay)
    }

    /// Borrow the pins and the delay provider.
    pub fn pins(&mut self) -> (parts: (&mut SCL, &mut SDA, &mut Delay))
        ensures
            (*parts.0, *parts.1, *parts.2) == old(self).spec_parts(),
            final(self).spec_half_period_ns() == old(self).spec_half_period_ns(),
            final(self).spec_parts() == (*final(parts.0), *final(parts.1), *final(parts.2)),
    {
        (&mut self.scl, &mut self.sda, &mut self.delay)
    }

    fn push_start(&self, p: &mut Vec<Instr<I2cLine>>)
        ensures
            final(p)@ == old(p)@ + start_seq(self.spec_half_period_ns()),
    {
        let h = self.half_period_ns;
        p.push(Instr::Drive(I2cLine::Sda, true));
        p.push(Instr::Wait(h));
        p.push(Instr::Drive(I2cLine::Scl, true));
        p.push(Instr::Wait(h));
        p.push(Instr::Drive(I2cLine::Sda, false));
        p.push(Instr::Wait(h));
        p.push(Instr::Drive(I2cLine::Scl, false));
        p.push(Instr::Wait(h));
        assert(final(p)@ =~= old(p)@ + start_seq(h));
    }

    fn push_stop(&self, p: &mut Vec<Instr<I2cLine>>)
        ensures
            final(p)@ == old(p)@ + stop_seq(self.spec_half_period_ns()),
    {
        let h = self.half_period_ns;
        p.push(Instr::Drive(I2cLine::Sda, false));
        p.push(Instr::Wait(h));
        p.push(Instr::Drive(I2cLine::Scl, true));
        p.push(Instr::Wait(h));
        p.push(Instr::Drive(I2cLine::Sda, true));
        p.push(Instr::Wait(h));
        assert(final(p)@ =~= old(p)@ + stop_seq(h));
    }

    fn push_ack_check(&self, p: &mut Vec<Instr<I2cLine>>)
        ensures
            final(p)@ == old(p)@ + ack_seq(self.spec_half_period_ns()),
    {
        let h = self.half_period_ns;
        p.push(Instr::Drive(I2cLine::Sda, true));
        p.push(Instr::Drive(I2cLine::Scl, true));
        p.push(Instr::Wait(h));
        p.push(Instr::SampleAck(I2cLine::Sda));
        p.push(Instr::Drive(I2cLine::Scl, false));
        p.push(Instr::Drive(I2cLine::Sda, false));
        p.push(Instr::Wait(h));
        p.push(Instr::RequireAck);
        assert(final(p)@ =~= old(p)@ + ack_seq(h));
    }

    fn push_write_byte(&self, p: &mut Vec<Instr<I2cLine>>, byte: u8)
        ensures
            final(p)@ == old(p)@ + write_byte_seq(byte, self.spec_half_period_ns()),
    {
        let h = self.half_period_ns;
        let mut bit_offset: u8 = 0;
        while bit_offset < 8
            invariant
                bit_offset <= 8,
                h == self.spec_half_period_ns(),
                p@ == old(p)@ + write_bits(byte, h, bit_offset as nat),
            decreases 8 - bit_offset,
        {
            let out_bit = (byte >> (7 - bit_offset)) & 0b1;
            p.push(Instr::Drive(I2cLine::Sda, out_bit == 1));
            p.push(Instr::Drive(I2cLine::Scl, true));
            p.push(Instr::Wait(h));
            p.push(Instr::Drive(I2cLine::Scl, false));
            p.push(Instr::Drive(I2cLine::Sda, false));
            p.push(Instr::Wait(h));
            bit_offset = bit_offset + 1;
            assert(p@ =~= old(p)@ + write_bits(byte, h, bit_offset as nat));
        }
    }

    fn push_read_byte(&self, p: &mut Vec<Instr<I2cLine>>, should_send_ack: bool)
        ensures
            final(p)@ == old(p)@ + read_byte_seq(should_send_ack, self.spec_half_period_ns()),
    {
        let h = self.half_period_ns;
        p.push(Instr::Drive(I2cLine::Sda, true));
        let ghost start = p@;
        let mut bit_offset: u8 = 0;
        while bit_offset < 8
            invariant
                bit_offset <= 8,
                h == self.spec_half_period_ns(),
                p@ == start + read_bits(h, bit_offset as nat),
            decreases 8 - bit_offset,
        {
            p.push(Instr::Drive(I2cLine::Scl, true));
            p.push(Instr::Wait(h));
            p.push(Instr::Sample(I2cLine::Sda));
            p.push(Instr::Drive(I2cLine::Scl, false));
            p.push(Instr::Wait(h));
            bit_offset = bit_offset + 1;
            assert(p@ =~= start + read_bits(h, bit_offset as nat));
        }
        p.push(Instr::Drive(I2cLine::Sda, !should_send_ack));
        p.push(Instr::Drive(I2cLine::Scl, true));
        p.push(Instr::Wait(h));
        p.push(Instr::Drive(I2cLine::Scl, false));
        p.push(Instr::Drive(I2cLine::Sda, false));
        p.push(Instr::Wait(h));
        assert(p@ =~= old(p)@ + read_byte_seq(should_send_ack, h));
    }

    fn push_write_bytes(&self, p: &mut Vec<Instr<I2cLine>>, bytes: &[u8])
        ensures
            final(p)@ == old(p)@ + write_bytes_seq(bytes@, self.spec_half_period_ns()),
    {
        let ghost h = self.spec_half_period_ns();
        let mut i: usize = 0;
        while i < bytes.len()
            invariant
                i <= bytes.len(),
                h == self.spec_half_period_ns(),
                p@ == old(p)@ + write_bytes_seq(bytes@.subrange(0, i as int), h),
            decreases bytes.len() - i,
        {
            self.push_write_byte(p, bytes[i]);
            self.push_ack_check(p);
            assert(bytes@.subrange(0, i + 1).drop_last() =~= bytes@.subrange(0, i as int));
            i = i + 1;
            assert(p@ =~= old(p)@ + write_bytes_seq(bytes@.subrange(0, i as int), h));
        }
        assert(bytes@.subrange(0, bytes.len() as int) =~= bytes@);
    }

    /// Read `len` bytes; if `nack_last`, the final byte is not acknowledged,
    /// otherwise every byte is.
    fn push_read_bytes(&self, p: &mut Vec<Instr<I2cLine>>, len: usize, nack_last: bool)
        ensures
            final(p)@ == old(p)@ + read_bytes_seq(len as nat, nack_last, self.spec_half_period_ns(), len as nat),
    {
        let ghost h = self.spec_half_period_ns();
        let mut i: usize = 0;
        while i < len
            invariant
                i <= len,
                h == self.spec_half_period_ns(),
                p@ == old(p)@ + read_bytes_seq(len as nat, nack_last, h, i as nat),
            decreases len - i,
        {
            let should_send_ack = !(nack_last && i == len - 1);
            self.push_read_byte(p, should_send_ack);
            i = i + 1;
            assert(p@ =~= old(p)@ + read_bytes_seq(len as nat, nack_last, h, i as nat));
        }
    }

    /// Write one byte, most significant bit first, without its acknowledge
    /// slot.
    pub fn i2c_write_byte(&self, byte: u8) -> (p: Vec<Instr<I2cLine>>)
        ensures
            p@ == write_byte_seq(byte, self.spec_half_period_ns()),
    {
        let mut p = Vec::new();
        self.push_write_byte(&mut p, byte);
        assert(p@ =~= write_byte_seq(byte, self.spec_half_period_ns()));
        p
    }

    /// Generate a (repeated) START condition.
    pub fn raw_i2c_start(&self) -> (p: Vec<Instr<I2cLine>>)
        ensures
            p@ == start_seq(self.spec_half_period_ns()),
    {
        let mut p = Vec::new();
        self.push_start(&mut p);
        assert(p@ =~= start_seq(self.spec_half_period_ns()));
        p
    }

    /// Generate a STOP condition.
    pub fn raw_i2c_stop(&self) -> (p: Vec<Instr<I2cLine>>)
        ensures
            p@ == stop_seq(self.spec_half_period_ns()),
    {
        let mut p = Vec::new();
        self.push_stop(&mut p);
        assert(p@ =~= stop_seq(self.spec_half_period_ns()));
        p
    }

    /// Write raw bytes, checking the slave's acknowledge after each byte. No
    /// START or STOP condition and no address byte.
    pub fn raw_write_to_slave(&self, output: &[u8]) -> (p: Vec<Instr<I2cLine>>)
        ensures
            p@ == write_bytes_seq(output@, self.spec_half_period_ns()),
    {
        let mut p = Vec::new();
        self.push_write_bytes(&mut p, output);
        assert(p@ =~= write_bytes_seq(output@, self.spec_half_period_ns()));
        p
    }

    /// Read `len` raw bytes, acknowledging every byte except the last one.
    /// No START or STOP condition and no address byte.
    pub fn raw_read_from_slave(&self, len: usize) -> (p: Vec<Instr<I2cLine>>)
        ensures
            p@ == read_bytes_seq(len as nat, true, self.spec_half_period_ns(), len as nat),
    {
        let mut p = Vec::new();
        self.push_read_bytes(&mut p, len, true);
        assert(p@ =~= read_bytes_seq(len as nat, true, self.spec_half_period_ns(), len as nat));
        p
    }

    /// A transaction with the slave at `addr`. A (repeated) START and the
    /// address byte are sent only where the direction changes; consecutive
    /// operations of one direction form one continuous data stream, and only
    /// the very last byte of a run of reads is not acknowledged. The bus ends
    /// with a STOP; no operations at all leave the bus untouched.
    pub fn transaction(&self, addr: u8, operations: &[Operation]) -> (p: Vec<Instr<I2cLine>>)
        ensures
            p@ == transaction_seq(addr, operations@, self.spec_half_period_ns()),
    {
        let mut p = Vec::new();
        if operations.len() == 0 {
            assert(p@ =~= transaction_seq(addr, operations@, self.spec_half_period_ns()));
            return p;
        }
        let ghost h = self.spec_half_period_ns();
        let mut current_type: Option<bool> = None;
        let mut i: usize = 0;
        while i < operations.len()
            invariant
                i <= operations.len(),
                h == self.spec_half_period_ns(),
                p@ == ops_seq(addr, operations@, h, i as nat),
                current_type == (if i == 0 {
                    None
                } else {
                    Some(op_reads(operations@[i - 1]))
                }),
            decreases operations.len() - i,
        {
            let op_is_read = match &operations[i] {
                Operation::Read(_) => true,
                Operation::Write(_) => false,
            };
            let ghost before = p@;
            if current_type != Some(op_is_read) {
                self.push_start(&mut p);
                let rw_bit: u8 = if op_is_read {
                    1
                } else {
                    0
                };
                self.push_write_byte(&mut p, (addr << 1u8) | rw_bit);
                self.push_ack_check(&mut p);
                current_type = Some(op_is_read);
            }
            let nack_last = !reads_more_in_run(operations, i + 1);
            match &operations[i] {
                Operation::Read(len) => self.push_read_bytes(&mut p, *len, nack_last),
                Operation::Write(bytes) => self.push_write_bytes(&mut p, bytes.as_slice()),
            }
            assert(p@ =~= before + op_seq(addr, operations@, i as int, h));
            i = i + 1;
        }
        self.push_stop(&mut p);
        p
    }
}

/// The `count` bytes received by reads, from the levels they sampled: each
/// byte is its eight samples, the first one the most significant bit.
pub fn received(samples: &Vec<bool>, count: usize) -> (bytes: Vec<u8>)
    requires
        8 * count <= samples.len(),
    ensures
        bytes@ == shifted_bytes(samples@, count as nat),
{
    shift_in_bytes(samples, count)
}

/// The address byte holds the 7-bit address in its upper bits and the
/// read flag in its lowest bit.
pub proof fn lemma_address_byte(addr: u8, read: bool)
    ensures
        address_byte(addr, read) >> 1u8 == addr & 0x7fu8,
        bit(address_byte(addr, read), 0) == read,
{
    let r: u8 = if read {
        1
    } else {
        0
    };
    assert(((addr << 1u8) | r) >> 1u8 == addr & 0x7fu8) by (bit_vector)
        requires
            r <= 1,
    ;
    assert((((addr << 1u8) | r) >> 0u8) & 1u8 == r) by (bit_vector)
        requires
            r <= 1,
    ;
}

/// Whether the instruction drives SDA.
pub open spec fn drives_sda(i: Instr<I2cLine>) -> bool {
    i matches Instr::Drive(I2cLine::Sda, _)
}

/// The level of SCL just before instruction `i` of `p` (true for high),
/// when it was at `init` before the first.
pub open spec fn scl_before(p: Seq<Instr<I2cLine>>, i: int, init: bool) -> bool
    decreases i,
{
    if i <= 0 {
        init
    } else {
        match p[i - 1] {
            Instr::Drive(I2cLine::Scl, high) => high,
            _ => scl_before(p, i - 1, init),
        }
    }
}

/// Starting with SCL low, SDA is driven only while SCL is low, and SCL is
/// low again at the end: the data on SDA is stable whenever the clock is
/// high.
pub open spec fn sda_stable_while_clock_high(p: Seq<Instr<I2cLine>>) -> bool {
    &&& forall|i: int| 0 <= i < p.len() && #[trigger] drives_sda(p[i]) ==> !scl_before(p, i, false)
    &&& !scl_before(p, p.len() as int, false)
}

proof fn lemma_scl_before_prefix(a: Seq<Instr<I2cLine>>, b: Seq<Instr<I2cLine>>, i: int, init: bool)
    requires
        0 <= i <= a.len(),
    ensures
        scl_before(a + b, i, init) == scl_before(a, i, init),
    decreases i,
{
    if i > 0 {
        lemma_scl_before_prefix(a, b, i - 1, init);
        assert((a + b)[i - 1] == a[i - 1]);
    }
}

proof fn lemma_scl_before_suffix(a: Seq<Instr<I2cLine>>, b: Seq<Instr<I2cLine>>, j: int, init: bool)
    requires
        0 <= j <= b.len(),
    ensures
        scl_before(a + b, a.len() + j, init) == scl_before(b, j, scl_before(a, a.len() as int, init)),
    decreases j,
{
    if j == 0 {
        lemma_scl_before_prefix(a, b, a.len() as int, init);
    } else {
        lemma_scl_before_suffix(a, b, j - 1, init);
        assert((a + b)[a.len() + j - 1] == b[j - 1]);
    }
}

/// Stability of SDA while the clock is high is kept by concatenation.
pub proof fn lemma_stable_concat(a: Seq<Instr<I2cLine>>, b: Seq<Instr<I2cLine>>)
    requires
        sda_stable_while_clock_high(a),
        sda_stable_while_clock_high(b),
    ensures
        sda_stable_while_clock_high(a + b),
{
    let ab = a + b;
    assert forall|i: int| 0 <= i < ab.len() && #[trigger] drives_sda(ab[i]) implies !scl_before(ab, i, false) by {
        if i < a.len() {
            lemma_scl_before_prefix(a, b, i, false);
            assert(ab[i] == a[i]);
        } else {
            lemma_scl_before_suffix(a, b, i - a.len(), false);
            assert(ab[i] == b[i - a.len()]);
        }
    }
    lemma_scl_before_suffix(a, b, b.len() as int, false);
}

proof fn lemma_stable_empty()
    ensures
        sda_stable_while_clock_high(Seq::<Instr<I2cLine>>::empty()),
{
}

proof fn lemma_write_bit_stable(level: bool, h: u32)
    ensures
        sda_stable_while_clock_high(write_bit_seq(level, h)),
{
    reveal_with_fuel(scl_before, 7);
    let p = write_bit_seq(level, h);
    assert(scl_before(p, 6, false) == false);
}

proof fn lemma_write_bits_stable(b: u8, h: u32, k: nat)
    ensures
        sda_stable_while_clock_high(write_bits(b, h, k)),
    decreases k,
{
    if k == 0 {
        lemma_stable_empty();
    } else {
        lemma_write_bits_stable(b, h, (k - 1) as nat);
        lemma_write_bit_stable(bit(b, (8 - k) as u8), h);
        lemma_stable_concat(write_bits(b, h, (k - 1) as nat), write_bit_seq(bit(b, (8 - k) as u8), h));
    }
}

proof fn lemma_ack_stable(h: u32)
    ensures
        sda_stable_while_clock_high(ack_seq(h)),
{
    reveal_with_fuel(scl_before, 9);
    let p = ack_seq(h);
    assert(scl_before(p, 0, false) == false);
    assert(scl_before(p, 5, false) == false);
    assert(scl_before(p, 8, false) == false);
}

proof fn lemma_read_bits_stable(h: u32, k: nat)
    ensures
        sda_stable_while_clock_high(read_bits(h, k)),
        forall|i: int| 0 <= i < read_bits(h, k).len() ==> !(#[trigger] drives_sda(read_bits(h, k)[i])),
    decreases k,
{
    if k == 0 {
        lemma_stable_empty();
    } else {
        reveal_with_fuel(scl_before, 6);
        let prev = read_bits(h, (k - 1) as nat);
        let one = read_bit_seq(h);
        lemma_read_bits_stable(h, (k - 1) as nat);
        assert(!scl_before(one, 5, false));
        lemma_stable_concat(prev, one);
        assert forall|i: int| 0 <= i < (prev + one).len() implies !(#[trigger] drives_sda((prev + one)[i])) by {
            if i < prev.len() {
                assert((prev + one)[i] == prev[i]);
            } else {
                assert((prev + one)[i] == one[i - prev.len()]);
            }
        }
    }
}

proof fn lemma_read_byte_stable(ack: bool, h: u32)
    ensures
        sda_stable_while_clock_high(read_byte_seq(ack, h)),
{
    reveal_with_fuel(scl_before, 7);
    let head = seq![Instr::Drive(I2cLine::Sda, true)];
    let tail = master_ack_seq(ack, h);
    assert(sda_stable_while_clock_high(head));
    assert(!scl_before(tail, 4, false));
    assert(!scl_before(tail, 6, false));
    assert(sda_stable_while_clock_high(tail));
    lemma_read_bits_stable(h, 8);
    lemma_stable_concat(head, read_bits(h, 8));
    lemma_stable_concat(head + read_bits(h, 8), tail);
}

proof fn lemma_write_bytes_stable(bytes: Seq<u8>, h: u32)
    ensures
        sda_stable_while_clock_high(write_bytes_seq(bytes, h)),
    decreases bytes.len(),
{
    if bytes.len() == 0 {
        lemma_stable_empty();
    } else {
        lemma_write_bytes_stable(bytes.drop_last(), h);
        lemma_write_bits_stable(bytes.last(), h, 8);
        lemma_ack_stable(h);
        lemma_stable_concat(write_bytes_seq(bytes.drop_last(), h), write_byte_seq(bytes.last(), h));
        lemma_stable_concat(
            write_bytes_seq(bytes.drop_last(), h) + write_byte_seq(bytes.last(), h),
            ack_seq(h),
        );
    }
}

proof fn lemma_read_bytes_stable(n: nat, nack_last: bool, h: u32, k: nat)
    ensures
        sda_stable_while_clock_high(read_bytes_seq(n, nack_last, h, k)),
    decreases k,
{
    if k == 0 {
        lemma_stable_empty();
    } else {
        lemma_read_bytes_stable(n, nack_last, h, (k - 1) as nat);
        lemma_read_byte_stable(read_ack(n, nack_last, (k - 1) as nat), h);
        lemma_stable_concat(
            read_bytes_seq(n, nack_last, h, (k - 1) as nat),
            read_byte_seq(read_ack(n, nack_last, (k - 1) as nat), h),
        );
    }
}

/// The I2C data rule: in the address byte with its acknowledge slot and in
/// every data phase of a transaction, as in the raw reads and writes, SDA
/// changes only while SCL is low, and SCL is left low. The only SDA edges
/// while SCL is high are those of START (SDA falls) and STOP (SDA rises).
pub proof fn lemma_data_stable_while_clock_high(addr: u8, ops: Seq<Operation>, i: int, h: u32)
    requires
        0 <= i < ops.len(),
    ensures
        sda_stable_while_clock_high(write_byte_seq(address_byte(addr, op_reads(ops[i])), h) + ack_seq(h)),
        sda_stable_while_clock_high(data_seq(ops, i, h)),
        scl_before(start_seq(h), 4, false) && start_seq(h)[4] == Instr::Drive(I2cLine::Sda, false),
        !scl_before(start_seq(h), 8, false),
        scl_before(stop_seq(h), 4, false) && stop_seq(h)[4] == Instr::Drive(I2cLine::Sda, true),
{
    lemma_write_bits_stable(address_byte(addr, op_reads(ops[i])), h, 8);
    lemma_ack_stable(h);
    lemma_stable_concat(write_byte_seq(address_byte(addr, op_reads(ops[i])), h), ack_seq(h));
    match ops[i] {
        Operation::Read(n) => lemma_read_bytes_stable(n as nat, nack_last(ops, i), h, n as nat),
        Operation::Write(bytes) => lemma_write_bytes_stable(bytes@, h),
    }
    reveal_with_fuel(scl_before, 9);
    assert(scl_before(start_seq(h), 4, false));
    assert(!scl_before(start_seq(h), 8, false));
    assert(scl_before(stop_seq(h), 4, false));
}

/// The number of bytes read by the first `k` operations.
pub open spec fn reads_before(ops: Seq<Operation>, k: int) -> nat
    decreases k,
{
    if k <= 0 {
        0
    } else {
        reads_before(ops, k - 1) + match ops[k - 1] {
            Operation::Read(n) => n as nat,
            Operation::Write(_) => 0nat,
        }
    }
}

proof fn lemma_sample_free(p: Seq<Instr<I2cLine>>)
    requires
        forall|i: int| 0 <= i < p.len() ==> !(#[trigger] p[i] is Sample),
    ensures
        sample_count(p) == 0,
    decreases p.len(),
{
    if p.len() > 0 {
        lemma_sample_free(p.drop_last());
        lemma_sample_count_concat(p.drop_last(), seq![p.last()]);
        assert(p.drop_last() + seq![p.last()] =~= p);
        reveal_with_fuel(crate::machine::samples_from, 2);
    }
}

proof fn lemma_write_bits_count(b: u8, h: u32, k: nat)
    ensures
        sample_count(write_bits(b, h, k)) == 0,
    decreases k,
{
    if k > 0 {
        lemma_write_bits_count(b, h, (k - 1) as nat);
        let one = write_bit_seq(bit(b, (8 - k) as u8), h);
        lemma_sample_free(one);
        lemma_sample_count_concat(write_bits(b, h, (k - 1) as nat), one);
    } else {
        lemma_sample_free(write_bits(b, h, k));
    }
}

proof fn lemma_write_bytes_count(bytes: Seq<u8>, h: u32)
    ensures
        sample_count(write_bytes_seq(bytes, h)) == 0,
    decreases bytes.len(),
{
    if bytes.len() > 0 {
        lemma_write_bytes_count(bytes.drop_last(), h);
        lemma_write_bits_count(bytes.last(), h, 8);
        lemma_sample_free(ack_seq(h));
        lemma_sample_count_concat(write_bytes_seq(bytes.drop_last(), h), write_byte_seq(bytes.last(), h));
        lemma_sample_count_concat(
            write_bytes_seq(bytes.drop_last(), h) + write_byte_seq(bytes.last(), h),
            ack_seq(h),
        );
    } else {
        lemma_sample_free(write_bytes_seq(bytes, h));
    }
}

proof fn lemma_read_bits_count(h: u32, k: nat)
    ensures
        sample_count(read_bits(h, k)) == k,
    decreases k,
{
    if k > 0 {
        lemma_read_bits_count(h, (k - 1) as nat);
        reveal_with_fuel(crate::machine::samples_from, 6);
        assert(sample_count(read_bit_seq(h)) == 1);
        lemma_sample_count_concat(read_bits(h, (k - 1) as nat), read_bit_seq(h));
    } else {
        lemma_sample_free(read_bits(h, k));
    }
}

proof fn lemma_read_bytes_count(n: nat, nack_last: bool, h: u32, k: nat)
    ensures
        sample_count(read_bytes_seq(n, nack_last, h, k)) == 8 * k,
    decreases k,
{
    if k > 0 {
        lemma_read_bytes_count(n, nack_last, h, (k - 1) as nat);
        let ack = read_ack(n, nack_last, (k - 1) as nat);
        let head = seq![Instr::Drive(I2cLine::Sda, true)];
        let tail = master_ack_seq(ack, h);
        lemma_sample_free(head);
        lemma_sample_free(tail);
        lemma_read_bits_count(h, 8);
        lemma_sample_count_concat(head, read_bits(h, 8));
        lemma_sample_count_concat(head + read_bits(h, 8), tail);
        lemma_sample_count_concat(read_bytes_seq(n, nack_last, h, (k - 1) as nat), read_byte_seq(ack, h));
    } else {
        lemma_sample_free(read_bytes_seq(n, nack_last, h, k));
    }
}

/// Where read bytes land: the first `k` operations of a transaction take
/// eight samples for every byte they read and none otherwise, so the
/// samples of each read operation follow those of the reads before it, and
/// the whole transaction takes eight samples per byte read.
pub proof fn lemma_transaction_samples(addr: u8, ops: Seq<Operation>, h: u32, k: nat)
    requires
        k <= ops.len(),
    ensures
        sample_count(ops_seq(addr, ops, h, k)) == 8 * reads_before(ops, k as int),
        sample_count(transaction_seq(addr, ops, h)) == 8 * reads_before(ops, ops.len() as int),
{
    lemma_ops_samples(addr, ops, h, k);
    lemma_ops_samples(addr, ops, h, ops.len());
    if ops.len() > 0 {
        lemma_sample_free(stop_seq(h));
        lemma_sample_count_concat(ops_seq(addr, ops, h, ops.len()), stop_seq(h));
    } else {
        lemma_sample_free(transaction_seq(addr, ops, h));
    }
}

proof fn lemma_ops_samples(addr: u8, ops: Seq<Operation>, h: u32, k: nat)
    requires
        k <= ops.len(),
    ensures
        sample_count(ops_seq(addr, ops, h, k)) == 8 * reads_before(ops, k as int),
    decreases k,
{
    if k > 0 {
        lemma_ops_samples(addr, ops, h, (k - 1) as nat);
        let i = k - 1;
        let header = if header_needed(ops, i) {
            start_seq(h) + write_byte_seq(address_byte(addr, op_reads(ops[i])), h) + ack_seq(h)
        } else {
            Seq::empty()
        };
        lemma_sample_free(start_seq(h));
        lemma_sample_free(ack_seq(h));
        lemma_sample_free(Seq::<Instr<I2cLine>>::empty());
        lemma_write_bits_count(address_byte(addr, op_reads(ops[i])), h, 8);
        lemma_sample_count_concat(start_seq(h), write_byte_seq(address_byte(addr, op_reads(ops[i])), h));
        lemma_sample_count_concat(
            start_seq(h) + write_byte_seq(address_byte(addr, op_reads(ops[i])), h),
            ack_seq(h),
        );
        match ops[i] {
            Operation::Read(n) => lemma_read_bytes_count(n as nat, nack_last(ops, i), h, n as nat),
            Operation::Write(bytes) => lemma_write_bytes_count(bytes@, h),
        }
        lemma_sample_count_concat(header, data_seq(ops, i, h));
        lemma_sample_count_concat(ops_seq(addr, ops, h, (k - 1) as nat), op_seq(addr, ops, i, h));
    } else {
        lemma_sample_free(ops_seq(addr, ops, h, 0));
    }
}

/// Every instruction drives, waits, samples or checks an acknowledge, and
/// every acknowledge check comes four instructions after its sample.
pub open spec fn acked_shape(p: Seq<Instr<I2cLine>>) -> bool {
    &&& forall|i: int| 0 <= i < p.len() ==> is_acked_kind(#[trigger] p[i])
    &&& checks_follow_samples(p)
}

proof fn lemma_acked_shape_concat(a: Seq<Instr<I2cLine>>, b: Seq<Instr<I2cLine>>)
    requires
        acked_shape(a),
        acked_shape(b),
    ensures
        acked_shape(a + b),
{
    let ab = a + b;
    assert forall|i: int| 0 <= i < ab.len() implies is_acked_kind(#[trigger] ab[i]) by {
        if i < a.len() {
            assert(ab[i] == a[i]);
        } else {
            assert(ab[i] == b[i - a.len()]);
        }
    }
    assert forall|i: int| 0 <= i < ab.len() && #[trigger] ab[i] is RequireAck implies i >= 4 && ab[i
        - 4] is SampleAck by {
        if i < a.len() {
            assert(ab[i] == a[i]);
            assert(ab[i - 4] == a[i - 4]);
        } else {
            let k = i - a.len();
            assert(ab[i] == b[k]);
            assert(ab[i - 4] == b[k - 4]);
        }
    }
}

proof fn lemma_shapes_of_parts(h: u32, level: bool, ack: bool)
    ensures
        acked_shape(start_seq(h)),
        acked_shape(stop_seq(h)),
        acked_shape(ack_seq(h)),
        acked_shape(write_bit_seq(level, h)),
        acked_shape(read_bit_seq(h)),
        acked_shape(seq![Instr::Drive(I2cLine::Sda, true)]),
        acked_shape(master_ack_seq(ack, h)),
        acked_shape(Seq::<Instr<I2cLine>>::empty()),
{
    let a = ack_seq(h);
    assert forall|i: int| 0 <= i < a.len() && #[trigger] a[i] is RequireAck implies i >= 4 && a[i
        - 4] is SampleAck by {
        assert(i == 7);
    }
}

proof fn lemma_write_bits_shape(b: u8, h: u32, k: nat)
    ensures
        acked_shape(write_bits(b, h, k)),
    decreases k,
{
    lemma_shapes_of_parts(h, bit(b, (8 - k) as u8), true);
    if k > 0 {
        lemma_write_bits_shape(b, h, (k - 1) as nat);
        lemma_acked_shape_concat(write_bits(b, h, (k - 1) as nat), write_bit_seq(bit(b, (8 - k) as u8), h));
    }
}

proof fn lemma_write_bytes_shape(bytes: Seq<u8>, h: u32)
    ensures
        acked_shape(write_bytes_seq(bytes, h)),
    decreases bytes.len(),
{
    lemma_shapes_of_parts(h, true, true);
    if bytes.len() > 0 {
        lemma_write_bytes_shape(bytes.drop_last(), h);
        lemma_write_bits_shape(bytes.last(), h, 8);
        lemma_acked_shape_concat(write_bytes_seq(bytes.drop_last(), h), write_byte_seq(bytes.last(), h));
        lemma_acked_shape_concat(
            write_bytes_seq(bytes.drop_last(), h) + write_byte_seq(bytes.last(), h),
            ack_seq(h),
        );
    }
}

proof fn lemma_read_bits_shape(h: u32, k: nat)
    ensures
        acked_shape(read_bits(h, k)),
    decreases k,
{
    lemma_shapes_of_parts(h, true, true);
    if k > 0 {
        lemma_read_bits_shape(h, (k - 1) as nat);
        lemma_acked_shape_concat(read_bits(h, (k - 1) as nat), read_bit_seq(h));
    }
}

proof fn lemma_read_bytes_shape(n: nat, nack_last: bool, h: u32, k: nat)
    ensures
        acked_shape(read_bytes_seq(n, nack_last, h, k)),
    decreases k,
{
    lemma_shapes_of_parts(h, true, true);
    if k > 0 {
        let ack = read_ack(n, nack_last, (k - 1) as nat);
        lemma_shapes_of_parts(h, true, ack);
        lemma_read_bytes_shape(n, nack_last, h, (k - 1) as nat);
        lemma_read_bits_shape(h, 8);
        let head = seq![Instr::Drive(I2cLine::Sda, true)];
        let tail = master_ack_seq(ack, h);
        lemma_acked_shape_concat(head, read_bits(h, 8));
        lemma_acked_shape_concat(head + read_bits(h, 8), tail);
        lemma_acked_shape_concat(read_bytes_seq(n, nack_last, h, (k - 1) as nat), read_byte_seq(ack, h));
    }
}

proof fn lemma_ops_shape(addr: u8, ops: Seq<Operation>, h: u32, k: nat)
    requires
        k <= ops.len(),
    ensures
        acked_shape(ops_seq(addr, ops, h, k)),
    decreases k,
{
    lemma_shapes_of_parts(h, true, true);
    if k > 0 {
        let i = k - 1;
        lemma_ops_shape(addr, ops, h, (k - 1) as nat);
        lemma_write_bits_shape(address_byte(addr, op_reads(ops[i])), h, 8);
        lemma_acked_shape_concat(start_seq(h), write_byte_seq(address_byte(addr, op_reads(ops[i])), h));
        lemma_acked_shape_concat(
            start_seq(h) + write_byte_seq(address_byte(addr, op_reads(ops[i])), h),
            ack_seq(h),
        );
        match ops[i] {
            Operation::Read(n) => lemma_read_bytes_shape(n as nat, nack_last(ops, i), h, n as nat),
            Operation::Write(bytes) => lemma_write_bytes_shape(bytes@, h),
        }
        let header = if header_needed(ops, i) {
            start_seq(h) + write_byte_seq(address_byte(addr, op_reads(ops[i])), h) + ack_seq(h)
        } else {
            Seq::empty()
        };
        lemma_acked_shape_concat(header, data_seq(ops, i, h));
        lemma_acked_shape_concat(ops_seq(addr, ops, h, (k - 1) as nat), op_seq(addr, ops, i, h));
    }
}

/// A transaction that every addressed slave acknowledges: run with every
/// acknowledge seen and the data samples answered by `data`, it ends
/// without fault, its STOP included, having recorded exactly `data`, eight
/// levels per byte read, in the order of the read operations.
pub proof fn lemma_acknowledged_transaction(addr: u8, ops: Seq<Operation>, h: u32, data: Seq<bool>)
    requires
        data.len() == 8 * reads_before(ops, ops.len() as int),
    ensures
        ({
            let p = transaction_seq(addr, ops, h);
            let r = run_model(start_model(p), acked_answers(p, 0, data), p.len() + 1);
            &&& r.pc == p.len()
            &&& r.fault is None
            &&& r.samples == data
        }),
{
    let p = transaction_seq(addr, ops, h);
    lemma_shapes_of_parts(h, true, true);
    lemma_ops_shape(addr, ops, h, ops.len());
    if ops.len() > 0 {
        lemma_acked_shape_concat(ops_seq(addr, ops, h, ops.len()), stop_seq(h));
    }
    lemma_transaction_samples(addr, ops, h, ops.len());
    lemma_acked_program_runs(p, data);
}

proof fn lemma_ops_prefix(addr: u8, ops: Seq<Operation>, h: u32, k: nat)
    requires
        1 <= k <= ops.len(),
    ensures
        ops_seq(addr, ops, h, k).len() >= op_seq(addr, ops, 0, h).len(),
        forall|j: int|
            0 <= j < op_seq(addr, ops, 0, h).len() ==> #[trigger] ops_seq(addr, ops, h, k)[j] == op_seq(
                addr,
                ops,
                0,
                h,
            )[j],
    decreases k,
{
    if k == 1 {
        assert(ops_seq(addr, ops, h, 0) =~= Seq::<Instr<I2cLine>>::empty());
        assert(ops_seq(addr, ops, h, 1) =~= op_seq(addr, ops, 0, h));
    } else {
        lemma_ops_prefix(addr, ops, h, (k - 1) as nat);
        let prev = ops_seq(addr, ops, h, (k - 1) as nat);
        assert forall|j: int| 0 <= j < op_seq(addr, ops, 0, h).len() implies #[trigger] ops_seq(
            addr,
            ops,
            h,
            k,
        )[j] == op_seq(addr, ops, 0, h)[j] by {
            assert(ops_seq(addr, ops, h, k)[j] == prev[j]);
        }
    }
}

proof fn lemma_write_bits_plain(b: u8, h: u32, k: nat)
    ensures
        write_bits(b, h, k).len() == 6 * k,
        forall|j: int| 0 <= j < write_bits(b, h, k).len() ==> (#[trigger] write_bits(b, h, k)[j] is Drive
            || write_bits(b, h, k)[j] is Wait),
    decreases k,
{
    if k > 0 {
        lemma_write_bits_plain(b, h, (k - 1) as nat);
        let prev = write_bits(b, h, (k - 1) as nat);
        let one = write_bit_seq(bit(b, (8 - k) as u8), h);
        assert forall|j: int| 0 <= j < (prev + one).len() implies (#[trigger] (prev + one)[j] is Drive || (
        prev + one)[j] is Wait) by {
            if j < prev.len() {
                assert((prev + one)[j] == prev[j]);
            } else {
                assert((prev + one)[j] == one[j - prev.len()]);
            }
        }
    }
}

proof fn lemma_header_layout(addr: u8, read: bool, h: u32)
    ensures
        header_seq(addr, read, h).len() == 64,
        forall|j: int|
            0 <= j < 59 ==> (#[trigger] header_seq(addr, read, h)[j] is Drive || header_seq(addr, read, h)[j] is Wait),
        header_seq(addr, read, h)[59] == Instr::SampleAck(I2cLine::Sda),
        forall|j: int|
            60 <= j < 63 ==> (#[trigger] header_seq(addr, read, h)[j] is Drive || header_seq(addr, read, h)[j] is Wait),
        header_seq(addr, read, h)[63] == Instr::<I2cLine>::RequireAck,
{
    let wb = write_byte_seq(address_byte(addr, read), h);
    let sw = start_seq(h) + wb;
    let hd = header_seq(addr, read, h);
    lemma_write_bits_plain(address_byte(addr, read), h, 8);
    assert(hd == sw + ack_seq(h));
    assert forall|j: int| 0 <= j < 59 implies (#[trigger] hd[j] is Drive || hd[j] is Wait) by {
        if j < 56 {
            assert(hd[j] == sw[j]);
            if j >= 8 {
                assert(sw[j] == wb[j - 8]);
            }
        } else {
            assert(hd[j] == ack_seq(h)[j - 56]);
        }
    }
    assert(hd[59] == ack_seq(h)[3]);
    assert forall|j: int| 60 <= j < 63 implies (#[trigger] hd[j] is Drive || hd[j] is Wait) by {
        assert(hd[j] == ack_seq(h)[j - 56]);
    }
    assert(hd[63] == ack_seq(h)[7]);
}

proof fn lemma_transaction_opens_with_header(addr: u8, ops: Seq<Operation>, h: u32)
    requires
        ops.len() > 0,
    ensures
        transaction_seq(addr, ops, h).len() >= 64,
        transaction_seq(addr, ops, h).subrange(0, 64) == header_seq(addr, op_reads(ops[0]), h),
{
    let p = transaction_seq(addr, ops, h);
    let header = header_seq(addr, op_reads(ops[0]), h);
    lemma_ops_prefix(addr, ops, h, ops.len());
    lemma_header_layout(addr, op_reads(ops[0]), h);
    assert(op_seq(addr, ops, 0, h) == header + data_seq(ops, 0, h));
    assert forall|j: int| 0 <= j < 64 implies #[trigger] p[j] == header[j] by {
        assert(op_seq(addr, ops, 0, h)[j] == header[j]);
        assert(p[j] == ops_seq(addr, ops, h, ops.len())[j]);
    }
    assert(p.subrange(0, 64) =~= header);
}

proof fn lemma_refused_header_run(p: Seq<Instr<I2cLine>>, header: Seq<Instr<I2cLine>>, rest: Seq<bool>, fuel: nat)
    requires
        p.len() >= 64,
        header.len() == 64,
        p.subrange(0, 64) == header,
        forall|j: int| 0 <= j < 59 ==> (#[trigger] header[j] is Drive || header[j] is Wait),
        header[59] == Instr::SampleAck(I2cLine::Sda),
        forall|j: int| 60 <= j < 63 ==> (#[trigger] header[j] is Drive || header[j] is Wait),
        header[63] == Instr::<I2cLine>::RequireAck,
        fuel >= 64,
    ensures
        ({
            let r = run_model(start_model(p), seq![false] + rest, fuel);
            &&& r.fault == Some(Fault::NoAck)
            &&& r.pc == 63
            &&& r.samples.len() == 0
        }),
{
    assert forall|j: int| 0 <= j < 64 implies #[trigger] p[j] == header[j] by {
        assert(p.subrange(0, 64)[j] == p[j]);
    }
    let answers = seq![false] + rest;
    let m0 = start_model(p);
    assert(straight_between(p, 0, 59)) by {
        assert forall|j: int| 0 <= j < 59 implies (#[trigger] p[j] is Drive || p[j] is Wait || p[j] is Sample) by {
            assert(p[j] == header[j]);
        }
    }
    assert forall|j: int| 0 <= j < 59 implies !(#[trigger] p[j] is Sample) by {
        assert(p[j] == header[j]);
    }
    lemma_samples_between_none(p, 0, 59);
    lemma_run_straight_stretch(m0, answers, 59, (fuel - 59) as nat);
    assert(answers.take(0) =~= Seq::<bool>::empty());
    assert(answers.skip(0) =~= answers);
    let m59 = SeqModel { pc: 59, samples: m0.samples + answers.take(0), ..m0 };
    assert(m59.samples =~= Seq::<bool>::empty());
    assert(p[59] == Instr::SampleAck(I2cLine::Sda));
    let (m59b, a59) = next_model(m59);
    let m60 = deliver_model(m59b, false);
    assert(m60.pc == 60 && !m60.ack);
    assert(run_model(m59, answers, (fuel - 59) as nat) == run_model(m60, rest, (fuel - 60) as nat)) by {
        assert(answers[0] == false);
        assert(answers.drop_first() =~= rest);
    }
    assert(straight_between(p, 60, 63)) by {
        assert forall|j: int| 60 <= j < 63 implies (#[trigger] p[j] is Drive || p[j] is Wait || p[j] is Sample) by {
            assert(p[j] == header[j]);
        }
    }
    assert forall|j: int| 60 <= j < 63 implies !(#[trigger] p[j] is Sample) by {
        assert(p[j] == header[j]);
    }
    lemma_samples_between_none(p, 60, 63);
    lemma_run_straight_stretch(m60, rest, 63, (fuel - 63) as nat);
    let m63 = SeqModel { pc: 63, samples: m60.samples + rest.take(0), ..m60 };
    assert(rest.take(0) =~= Seq::<bool>::empty());
    assert(rest.skip(0) =~= rest);
    assert(m63.samples =~= Seq::<bool>::empty());
    assert(p[63] == Instr::<I2cLine>::RequireAck);
    let (m63b, a63) = next_model(m63);
    assert(a63 == Action::<I2cLine>::Failed(Fault::NoAck));
    assert(run_model(m63, rest, (fuel - 63) as nat) == m63b);
}

/// What a refused request is answered: when the slave does not acknowledge
/// the address byte (SDA reads high in its acknowledge slot), the
/// transaction stops with [`Fault::NoAck`] right after that slot, having
/// sent only the START and the address byte, read nothing, and sent no STOP.
pub proof fn lemma_unacknowledged_address(addr: u8, ops: Seq<Operation>, h: u32, rest: Seq<bool>)
    requires
        ops.len() > 0,
    ensures
        transaction_seq(addr, ops, h).subrange(0, 64) == header_seq(addr, op_reads(ops[0]), h),
        ({
            let p = transaction_seq(addr, ops, h);
            let r = run_model(start_model(p), seq![false] + rest, p.len() + 1);
            &&& r.fault == Some(Fault::NoAck)
            &&& r.pc == 63
            &&& r.samples.len() == 0
        }),
{
    let p = transaction_seq(addr, ops, h);
    lemma_transaction_opens_with_header(addr, ops, h);
    lemma_header_layout(addr, op_reads(ops[0]), h);
    lemma_refused_header_run(p, header_seq(addr, op_reads(ops[0]), h), rest, p.len() + 1);
}

proof fn lemma_reads_before_monotone(ops: Seq<Operation>, i: int, j: int)
    requires
        0 <= i <= j <= ops.len(),
    ensures
        reads_before(ops, i) <= reads_before(ops, j),
    decreases j - i,
{
    if i < j {
        lemma_reads_before_monotone(ops, i, j - 1);
    }
}

/// The bytes operation `i` reads, out of the bytes received in order by the
/// reads of the whole transaction: the next `n` bytes after those of the
/// reads before it for a read of `n` bytes, none for a write.
pub open spec fn bytes_of_op(ops: Seq<Operation>, bytes: Seq<u8>, i: int) -> Seq<u8> {
    match ops[i] {
        Operation::Read(n) => bytes.subrange(reads_before(ops, i) as int, reads_before(ops, i) + n),
        Operation::Write(_) => Seq::empty(),
    }
}

fn copy_range(bytes: &Vec<u8>, from: usize, len: usize) -> (part: Vec<u8>)
    requires
        from + len <= bytes.len(),
    ensures
        part@ == bytes@.subrange(from as int, from + len),
{
    let mut part: Vec<u8> = Vec::new();
    let mut k: usize = 0;
    while k < len
        invariant
            k <= len,
            from + len <= bytes.len(),
            part@ == bytes@.subrange(from as int, from + k),
        decreases len - k,
    {
        part.push(bytes[from + k]);
        k = k + 1;
        assert(part@ =~= bytes@.subrange(from as int, from + k));
    }
    part
}

/// Where a transaction's read bytes land: one buffer per operation, in
/// order. The samples the transaction took are assembled most significant
/// bit first, eight to a byte, and each read operation gets the next bytes,
/// as many as it reads; a write gets none.
pub fn read_results(operations: &[Operation], samples: &Vec<bool>) -> (results: Vec<Vec<u8>>)
    requires
        8 * reads_before(operations@, operations.len() as int) <= samples.len(),
    ensures
        results.len() == operations.len(),
        forall|i: int|
            0 <= i < operations.len() ==> #[trigger] results@[i]@ == bytes_of_op(
                operations@,
                shifted_bytes(samples@, (samples.len() / 8) as nat),
                i,
            ),
{
    let bytes = shift_in_bytes(samples, samples.len() / 8);
    let ghost total = reads_before(operations@, operations.len() as int);
    assert(total <= samples.len() / 8);
    let mut results: Vec<Vec<u8>> = Vec::new();
    let mut at: usize = 0;
    let mut i: usize = 0;
    while i < operations.len()
        invariant
            i <= operations.len(),
            total == reads_before(operations@, operations.len() as int),
            total <= bytes.len(),
            bytes@ == shifted_bytes(samples@, (samples.len() / 8) as nat),
            at == reads_before(operations@, i as int),
            results.len() == i,
            forall|j: int| 0 <= j < i ==> #[trigger] results@[j]@ == bytes_of_op(operations@, bytes@, j),
        decreases operations.len() - i,
    {
        proof {
            lemma_reads_before_monotone(operations@, i + 1, operations.len() as int);
        }
        match &operations[i] {
            Operation::Read(n) => {
                let part = copy_range(&bytes, at, *n);
                results.push(part);
                at = at + *n;
            },
            Operation::Write(_) => {
                results.push(Vec::new());
            },
        }
        i = i + 1;
    }
    results
}

proof fn lemma_write_bits_layout(b: u8, h: u32, k: nat)
    requires
        k <= 8,
    ensures
        write_bits(b, h, k).len() == 6 * k,
        forall|m: int, j: int|
            0 <= m < k && 0 <= j < 6 ==> #[trigger] write_bits(b, h, k)[6 * m + j] == write_bit_seq(
                bit(b, (7 - m) as u8),
                h,
            )[j],
    decreases k,
{
    if k > 0 {
        lemma_write_bits_layout(b, h, (k - 1) as nat);
        let prev = write_bits(b, h, (k - 1) as nat);
        let one = write_bit_seq(bit(b, (8 - k) as u8), h);
        assert forall|m: int, j: int| 0 <= m < k && 0 <= j < 6 implies #[trigger] write_bits(b, h, k)[6 * m
            + j] == write_bit_seq(bit(b, (7 - m) as u8), h)[j] by {
            if m < k - 1 {
                assert(write_bits(b, h, k)[6 * m + j] == prev[6 * m + j]);
            } else {
                assert(write_bits(b, h, k)[6 * m + j] == one[j]);
                assert((8 - k) as u8 == (7 - m) as u8);
            }
        }
    }
}

/// Writing bytes sends every one of them, in order: each takes 56
/// instructions, eight bit slots of six that put its bits on SDA most
/// significant first and pulse SCL, then its acknowledge slot, which
/// samples the slave's acknowledge and stops unless it was seen.
pub proof fn lemma_write_bytes_layout(bytes: Seq<u8>, h: u32)
    ensures
        write_bytes_seq(bytes, h).len() == 56 * bytes.len(),
        forall|i: int, k: int|
            0 <= i < bytes.len() && 0 <= k < 8 ==> {
                &&& #[trigger] write_bytes_seq(bytes, h)[56 * i + 6 * k] == Instr::Drive(
                    I2cLine::Sda,
                    bit(bytes[i], (7 - k) as u8),
                )
                &&& write_bytes_seq(bytes, h)[56 * i + 6 * k + 1] == Instr::Drive(I2cLine::Scl, true)
                &&& write_bytes_seq(bytes, h)[56 * i + 6 * k + 2] == Instr::<I2cLine>::Wait(h)
                &&& write_bytes_seq(bytes, h)[56 * i + 6 * k + 3] == Instr::Drive(I2cLine::Scl, false)
            },
        forall|i: int|
            0 <= i < bytes.len() ==> #[trigger] write_bytes_seq(bytes, h)[56 * i + 51] == Instr::SampleAck(
                I2cLine::Sda,
            ) && write_bytes_seq(bytes, h)[56 * i + 55] == Instr::<I2cLine>::RequireAck,
    decreases bytes.len(),
{
    if bytes.len() > 0 {
        let prefix = bytes.drop_last();
        lemma_write_bytes_layout(prefix, h);
        lemma_write_bits_layout(bytes.last(), h, 8);
        let prev = write_bytes_seq(prefix, h);
        let wb = write_byte_seq(bytes.last(), h);
        let s = write_bytes_seq(bytes, h);
        assert(s == prev + wb + ack_seq(h));
        let n1 = prefix.len() as int;
        assert forall|i: int, k: int| 0 <= i < bytes.len() && 0 <= k < 8 implies {
            &&& #[trigger] s[56 * i + 6 * k] == Instr::Drive(I2cLine::Sda, bit(bytes[i], (7 - k) as u8))
            &&& s[56 * i + 6 * k + 1] == Instr::Drive(I2cLine::Scl, true)
            &&& s[56 * i + 6 * k + 2] == Instr::<I2cLine>::Wait(h)
            &&& s[56 * i + 6 * k + 3] == Instr::Drive(I2cLine::Scl, false)
        } by {
            if i < n1 {
                assert(prefix[i] == bytes[i]);
                assert(s[56 * i + 6 * k] == prev[56 * i + 6 * k]);
                assert(s[56 * i + 6 * k + 1] == prev[56 * i + 6 * k + 1]);
                assert(s[56 * i + 6 * k + 2] == prev[56 * i + 6 * k + 2]);
                assert(s[56 * i + 6 * k + 3] == prev[56 * i + 6 * k + 3]);
            } else {
                assert(s[56 * i + 6 * k] == wb[6 * k + 0]);
                assert(s[56 * i + 6 * k + 1] == wb[6 * k + 1]);
                assert(s[56 * i + 6 * k + 2] == wb[6 * k + 2]);
                assert(s[56 * i + 6 * k + 3] == wb[6 * k + 3]);
            }
        }
        assert forall|i: int| 0 <= i < bytes.len() implies #[trigger] s[56 * i + 51] == Instr::SampleAck(
            I2cLine::Sda,
        ) && s[56 * i + 55] == Instr::<I2cLine>::RequireAck by {
            if i < n1 {
                assert(s[56 * i + 51] == prev[56 * i + 51]);
                assert(s[56 * i + 55] == prev[56 * i + 55]);
            } else {
                assert(s[56 * i + 51] == ack_seq(h)[3]);
                assert(s[56 * i + 55] == ack_seq(h)[7]);
            }
        }
    }
}

proof fn lemma_read_bits_layout(h: u32, k: nat)
    ensures
        read_bits(h, k).len() == 5 * k,
        forall|m: int| 0 <= m < k ==> #[trigger] read_bits(h, k)[5 * m + 2] == Instr::Sample(I2cLine::Sda),
    decreases k,
{
    if k > 0 {
        lemma_read_bits_layout(h, (k - 1) as nat);
        let prev = read_bits(h, (k - 1) as nat);
        assert forall|m: int| 0 <= m < k implies #[trigger] read_bits(h, k)[5 * m + 2] == Instr::Sample(
            I2cLine::Sda,
        ) by {
            if m < k - 1 {
                assert(read_bits(h, k)[5 * m + 2] == prev[5 * m + 2]);
            }
        }
    }
}

/// Reading `n` bytes takes 47 instructions per byte: SDA released, eight
/// SCL pulses each sampling SDA, then the master's acknowledge slot. The
/// master acknowledges (drives SDA low) every byte but the last, and the
/// last one too unless `nack_last`, in which case it leaves SDA high.
pub proof fn lemma_read_bytes_acks(n: nat, nack_last: bool, h: u32)
    ensures
        read_bytes_seq(n, nack_last, h, n).len() == 47 * n,
        forall|j: int|
            0 <= j < n ==> #[trigger] read_bytes_seq(n, nack_last, h, n)[47 * j] == Instr::Drive(I2cLine::Sda, true),
        forall|j: int, k: int|
            0 <= j < n && 0 <= k < 8 ==> #[trigger] read_bytes_seq(n, nack_last, h, n)[47 * j + 5 * k + 3]
                == Instr::Sample(I2cLine::Sda),
        forall|j: int|
            0 <= j < n - 1 ==> #[trigger] read_bytes_seq(n, nack_last, h, n)[47 * j + 41] == Instr::Drive(
                I2cLine::Sda,
                false,
            ),
        n > 0 ==> read_bytes_seq(n, nack_last, h, n)[47 * (n - 1) + 41] == Instr::Drive(I2cLine::Sda, nack_last),
{
    lemma_read_acks_prefix(n, nack_last, h, n);
}

proof fn lemma_read_acks_prefix(n: nat, nack_last: bool, h: u32, m: nat)
    requires
        m <= n,
    ensures
        read_bytes_seq(n, nack_last, h, m).len() == 47 * m,
        forall|j: int| 0 <= j < m ==> #[trigger] read_bytes_seq(n, nack_last, h, m)[47 * j] == Instr::Drive(I2cLine::Sda, true),
        forall|j: int, k: int|
            0 <= j < m && 0 <= k < 8 ==> #[trigger] read_bytes_seq(n, nack_last, h, m)[47 * j + 5 * k + 3]
                == Instr::Sample(I2cLine::Sda),
        forall|j: int|
            0 <= j < m ==> #[trigger] read_bytes_seq(n, nack_last, h, m)[47 * j + 41] == Instr::Drive(
                I2cLine::Sda,
                nack_last && j == n - 1,
            ),
    decreases m,
{
    if m > 0 {
        lemma_read_acks_prefix(n, nack_last, h, (m - 1) as nat);
        lemma_read_bits_layout(h, 8);
        let prev = read_bytes_seq(n, nack_last, h, (m - 1) as nat);
        let ack = read_ack(n, nack_last, (m - 1) as nat);
        let one = read_byte_seq(ack, h);
        let s = read_bytes_seq(n, nack_last, h, m);
        let head = seq![Instr::Drive(I2cLine::Sda, true)];
        assert(one == head + read_bits(h, 8) + master_ack_seq(ack, h));
        assert(one.len() == 47);
        let base = 47 * (m - 1);
        assert forall|j: int| 0 <= j < m implies #[trigger] s[47 * j] == Instr::Drive(I2cLine::Sda, true) by {
            if j < m - 1 {
                assert(s[47 * j] == prev[47 * j]);
            } else {
                assert(s[47 * j] == one[0]);
            }
        }
        assert forall|j: int, k: int| 0 <= j < m && 0 <= k < 8 implies #[trigger] s[47 * j + 5 * k + 3]
            == Instr::Sample(I2cLine::Sda) by {
            if j < m - 1 {
                assert(s[47 * j + 5 * k + 3] == prev[47 * j + 5 * k + 3]);
            } else {
                assert(s[47 * j + 5 * k + 3] == one[5 * k + 3]);
                assert(one[5 * k + 3] == read_bits(h, 8)[5 * k + 2]);
            }
        }
        assert forall|j: int| 0 <= j < m implies #[trigger] s[47 * j + 41] == Instr::Drive(
            I2cLine::Sda,
            nack_last && j == n - 1,
        ) by {
            if j < m - 1 {
                assert(s[47 * j + 41] == prev[47 * j + 41]);
            } else {
                assert(s[47 * j + 41] == one[41]);
                assert(one[41] == master_ack_seq(ack, h)[0]);
            }
        }
    }
}

/// In a transaction, a read that ends its run of reads (the last
/// operation, or one followed by a write) acknowledges every byte but its
/// last, which it leaves unacknowledged; a raw read does the same.
pub proof fn lemma_read_run_end_acks(ops: Seq<Operation>, i: int, h: u32)
    requires
        0 <= i < ops.len(),
        ops[i] is Read,
        i + 1 == ops.len() || ops[i + 1] is Write,
    ensures
        ({
            let n = ops[i]->Read_0 as nat;
            let d = data_seq(ops, i, h);
            &&& d.len() == 47 * n
            &&& forall|j: int| 0 <= j < n - 1 ==> #[trigger] d[47 * j + 41] == Instr::Drive(I2cLine::Sda, false)
            &&& n > 0 ==> d[47 * (n - 1) + 41] == Instr::Drive(I2cLine::Sda, true)
        }),
{
    let n = ops[i]->Read_0 as nat;
    assert(!run_reads_more(ops, i + 1));
    lemma_read_bytes_acks(n, true, h);
}

} // verus!
