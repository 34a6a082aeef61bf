//! Serial communication (UART): 8-N-1 frames, least significant bit first.
//!
//! A frame is a low start bit, eight data bits and a high stop bit, each held
//! for one bit duration. Reception waits for the falling edge of the start
//! bit, samples each data bit in its middle and checks that the stop bit
//! samples high.

use vstd::prelude::*;
use crate::bits::{bit, lsb_first, lsb_first_byte, lemma_lsb_first_bits, lemma_bits_determine_byte};
use crate::machine::{
    Fault, Instr, SeqModel, advance, next_model, deliver_model, run_model, start_model, straight_between,
    samples_between, lemma_run_straight_stretch, lemma_run_await_low,
};

verus! {

/// Serial communication error.
#[derive(Debug)]
pub enum Error<E> {
    /// A pin reported an error.
    Bus(E),
    /// The stop bit sampled low: the line is not idle where the frame should
    /// end (baud-rate mismatch or line noise).
    FrameFormat,
}

/// The lines of a serial link.
#[derive(Debug, Clone, Copy, PartialEq, Eq, Structural)]
pub enum SerialLine {
    /// Transmit, driven.
    Tx,
    /// Receive, sampled.
    Rx,
}

/// The duration of one bit at `baud_rate`, in nanoseconds.
pub open spec fn bit_duration_for(baud_rate: u32) -> int {
    1_000_000_000int / baud_rate as int
}

/// The first `k` data bits of a frame carrying `b`, least significant first.
pub open spec fn data_bits(b: u8, bit_ns: u32, k: nat) -> Seq<Instr<SerialLine>>
    decreases k,
{
    if k == 0 {
        Seq::empty()
    } else {
        data_bits(b, bit_ns, (k - 1) as nat) + seq![
            Instr::Drive(SerialLine::Tx, bit(b, (k - 1) as u8)),
            Instr::Wait(bit_ns),
        ]
    }
}

/// Sending the frame of `b`: start bit, eight data bits, stop bit.
pub open spec fn write_frame(b: u8, bit_ns: u32) -> Seq<Instr<SerialLine>> {
    seq![Instr::Drive(SerialLine::Tx, false), Instr::Wait(bit_ns)] + data_bits(b, bit_ns, 8) + seq![
        Instr::Drive(SerialLine::Tx, true),
        Instr::Wait(bit_ns),
    ]
}

/// Sending the frames of `bytes`, one after another.
pub open spec fn write_frames(bytes: Seq<u8>, bit_ns: u32) -> Seq<Instr<SerialLine>>
    decreases bytes.len(),
{
    if bytes.len() == 0 {
        Seq::empty()
    } else {
        write_frames(bytes.drop_last(), bit_ns) + write_frame(bytes.last(), bit_ns)
    }
}

/// The first `k` data-bit samples of a received frame.
pub open spec fn data_samples(bit_ns: u32, k: nat) -> Seq<Instr<SerialLine>>
    decreases k,
{
    if k == 0 {
        Seq::empty()
    } else {
        data_samples(bit_ns, (k - 1) as nat) + seq![
            Instr::Sample(SerialLine::Rx),
            Instr::Wait(bit_ns),
        ]
    }
}

/// Receiving one frame: wait for the start bit, skip to the middle of the
/// first data bit, sample the eight data bits one bit apart, then check that
/// the stop bit samples high.
pub open spec fn read_frame(bit_ns: u32) -> Seq<Instr<SerialLine>> {
    seq![
        Instr::AwaitLow(SerialLine::Rx),
        Instr::Wait((bit_ns + bit_ns / 2) as u32),
    ] + data_samples(bit_ns, 8) + seq![Instr::RequireHigh(SerialLine::Rx)]
}

/// The duration of one bit, which is never more than a second.
struct BitTime {
    ns: u32,
}

impl BitTime {
    #[verifier::type_invariant]
    spec fn at_most_a_second(&self) -> bool {
        self.ns <= 1_000_000_000
    }
}

/// A serial link on a transmit pin, a receive pin and a delay provider.
pub struct Serial<TX, RX, Delay> {
    tx: TX,
    rx: RX,
    delay: Delay,
    bit_time: BitTime,
}

impl<TX, RX, Delay> Serial<TX, RX, Delay> {
    /// The duration of one bit, in nanoseconds.
    pub closed spec fn spec_bit_duration_ns(&self) -> u32 {
        self.bit_time.ns
    }

    /// The pins and the delay provider.
    pub closed spec fn spec_parts(&self) -> (TX, RX, Delay) {
        (self.tx, self.rx, self.delay)
    }

    /// The duration of one bit, in nanoseconds.
    pub fn bit_duration_ns(&self) -> (ns: u32)
        ensures
            ns == self.spec_bit_duration_ns(),
    {
        self.bit_time.ns
    }

    /// Create an instance with the given baud rate (e.g. `9600`); a bit lasts
    /// `1_000_000_000 / baud_rate` nanoseconds.
    pub fn new(tx: TX, rx: RX, delay: Delay, baud_rate: u32) -> (s: Self)
        requires
            baud_rate > 0,
        ensures
            s.spec_bit_duration_ns() == bit_duration_for(baud_rate),
            s.spec_parts() == (tx, rx, delay),
    {
        Serial { tx, rx, delay, bit_time: BitTime { ns: 1_000_000_000 / baud_rate } }
    }

    /// Release the pins and delay provider.
    pub fn free(self) -> (parts: (TX, RX, Delay))
        ensures
            parts == self.spec_parts(),
    {
        (self.tx, self.rx, self.delay)
    }

    /// Borrow the pins and the delay provider.
    pub fn pins(&mut self) -> (parts: (&mut TX, &mut RX, &mut Delay))
        ensures
            (*parts.0, *parts.1, *parts.2) == old(self).spec_parts(),
            final(self).spec_bit_duration_ns() == old(self).spec_bit_duration_ns(),
            final(self).spec_parts() == (*final(parts.0), *final(parts.1), *final(parts.2)),
    {
        (&mut self.tx, &mut self.rx, &mut self.delay)
    }

    fn push_write_byte(&self, p: &mut Vec<Instr<SerialLine>>, byte: u8)
        ensures
            final(p)@ == old(p)@ + write_frame(byte, self.spec_bit_duration_ns()),
    {
        let d = self.bit_time.ns;
        p.push(Instr::Drive(SerialLine::Tx, false));
        p.push(Instr::Wait(d));
        let ghost start = p@;
        let mut k: u8 = 0;
        while k < 8
            invariant
                k <= 8,
                d == self.spec_bit_duration_ns(),
                p@ == start + data_bits(byte, d, k as nat),
            decreases 8 - k,
        {
            p.push(Instr::Drive(SerialLine::Tx, (byte >> k) & 1 == 1));
            p.push(Instr::Wait(d));
            k = k + 1;
            assert(p@ =~= start + data_bits(byte, d, k as nat));
        }
        p.push(Instr::Drive(SerialLine::Tx, true));
        p.push(Instr::Wait(d));
        assert(p@ =~= old(p)@ + write_frame(byte, d));
    }

    /// Transmit a single byte.
    pub fn write_byte_program(&self, byte: u8) -> (p: Vec<Instr<SerialLine>>)
        ensures
            p@ == write_frame(byte, self.spec_bit_duration_ns()),
    {
        let mut p = Vec::new();
        self.push_write_byte(&mut p, byte);
        assert(p@ =~= write_frame(byte, self.spec_bit_duration_ns()));
        p
    }

    /// Transmit `bytes`, one frame after another. All of them are written.
    pub fn write_program(&self, bytes: &[u8]) -> (p: Vec<Instr<SerialLine>>)
        ensures
            p@ == write_frames(bytes@, self.spec_bit_duration_ns()),
    {
        let mut p = Vec::new();
        let mut i: usize = 0;
        while i < bytes.len()
            invariant
                i <= bytes.len(),
                p@ == write_frames(bytes@.subrange(0, i as int), self.spec_bit_duration_ns()),
            decreases bytes.len() - i,
        {
            self.push_write_byte(&mut p, bytes[i]);
            assert(bytes@.subrange(0, i + 1).drop_last() =~= bytes@.subrange(0, i as int));
            i = i + 1;
        }
        assert(bytes@.subrange(0, bytes.len() as int) =~= bytes@);
        p
    }

    /// Receive a single byte.
    pub fn read_byte_program(&self) -> (p: Vec<Instr<SerialLine>>)
        ensures
            p@ == read_frame(self.spec_bit_duration_ns()),
    {
        proof {
            use_type_invariant(&self.bit_time);
        }
        let d = self.bit_time.ns;
        let mut p = Vec::new();
        p.push(Instr::AwaitLow(SerialLine::Rx));
        p.push(Instr::Wait(d + d / 2));
        let ghost start = p@;
        let mut k: u8 = 0;
        while k < 8
            invariant
                k <= 8,
                p@ == start + data_samples(d, k as nat),
            decreases 8 - k,
        {
            p.push(Instr::Sample(SerialLine::Rx));
            p.push(Instr::Wait(d));
            k = k + 1;
            assert(p@ =~= start + data_samples(d, k as nat));
        }
        p.push(Instr::RequireHigh(SerialLine::Rx));
        assert(p@ =~= read_frame(d));
        p
    }

    /// Read into a buffer of `buf_len` bytes: a single byte is received when
    /// the buffer has room for one, nothing happens on the lines otherwise.
    /// Returns the program and the number of bytes it delivers.
    pub fn read_program(&self, buf_len: usize) -> (plan: (Vec<Instr<SerialLine>>, usize))
        ensures
            buf_len == 0 ==> plan.0@ == Seq::<Instr<SerialLine>>::empty() && plan.1 == 0,
            buf_len > 0 ==> plan.0@ == read_frame(self.spec_bit_duration_ns()) && plan.1 == 1,
    {
        if buf_len == 0 {
            (Vec::new(), 0)
        } else {
            (self.read_byte_program(), 1)
        }
    }
}

/// The byte received by a frame, from its eight data samples: the first
/// sample is the least significant bit.
pub fn received_byte(samples: &Vec<bool>) -> (b: u8)
    requires
        8 <= samples.len(),
    ensures
        b == lsb_first(samples@.subrange(0, 8)),
{
    lsb_first_byte(samples)
}

/// Each data bit of a sent frame is held on TX in its own slot: the frame
/// is twenty instructions long, starts low, ends high, and drives bit `k`
/// of the byte at position `2 + 2k`.
pub proof fn lemma_write_frame_layout(b: u8, bit_ns: u32)
    ensures
        write_frame(b, bit_ns).len() == 20,
        write_frame(b, bit_ns)[0] == Instr::Drive(SerialLine::Tx, false),
        write_frame(b, bit_ns)[18] == Instr::Drive(SerialLine::Tx, true),
        forall|k: int|
            0 <= k < 8 ==> #[trigger] write_frame(b, bit_ns)[2 + 2 * k] == Instr::Drive(
                SerialLine::Tx,
                bit(b, k as u8),
            ),
        forall|t: int| 0 <= t < 10 ==> #[trigger] write_frame(b, bit_ns)[2 * t + 1] == Instr::<SerialLine>::Wait(bit_ns),
{
    lemma_data_bits_layout(b, bit_ns, 8);
    let f = write_frame(b, bit_ns);
    assert forall|k: int| 0 <= k < 8 implies #[trigger] f[2 + 2 * k] == Instr::Drive(
        SerialLine::Tx,
        bit(b, k as u8),
    ) by {
        assert(f[2 + 2 * k] == data_bits(b, bit_ns, 8)[2 * k]);
    }
    assert forall|t: int| 0 <= t < 10 implies #[trigger] f[2 * t + 1] == Instr::<SerialLine>::Wait(bit_ns) by {
        if 1 <= t <= 8 {
            assert(f[2 * t + 1] == data_bits(b, bit_ns, 8)[2 * (t - 1) + 1]);
        }
    }
}

proof fn lemma_data_bits_layout(b: u8, bit_ns: u32, k: nat)
    requires
        k <= 8,
    ensures
        data_bits(b, bit_ns, k).len() == 2 * k,
        forall|m: int|
            0 <= m < k ==> #[trigger] data_bits(b, bit_ns, k)[2 * m] == Instr::Drive(
                SerialLine::Tx,
                bit(b, m as u8),
            ),
        forall|m: int| 0 <= m < k ==> #[trigger] data_bits(b, bit_ns, k)[2 * m + 1] == Instr::<SerialLine>::Wait(bit_ns),
    decreases k,
{
    if k > 0 {
        lemma_data_bits_layout(b, bit_ns, (k - 1) as nat);
        let prev = data_bits(b, bit_ns, (k - 1) as nat);
        assert forall|m: int| 0 <= m < k implies #[trigger] data_bits(b, bit_ns, k)[2 * m]
            == Instr::Drive(SerialLine::Tx, bit(b, m as u8)) by {
            if m < k - 1 {
                assert(data_bits(b, bit_ns, k)[2 * m] == prev[2 * m]);
            }
        }
        assert forall|m: int| 0 <= m < k implies #[trigger] data_bits(b, bit_ns, k)[2 * m + 1]
            == Instr::<SerialLine>::Wait(bit_ns) by {
            if m < k - 1 {
                assert(data_bits(b, bit_ns, k)[2 * m + 1] == prev[2 * m + 1]);
            }
        }
    }
}

proof fn lemma_data_samples_layout(bit_ns: u32, k: nat)
    requires
        k <= 8,
    ensures
        data_samples(bit_ns, k).len() == 2 * k,
        forall|m: int| 0 <= m < k ==> #[trigger] data_samples(bit_ns, k)[2 * m] == Instr::Sample(SerialLine::Rx),
        forall|m: int| 0 <= m < k ==> #[trigger] data_samples(bit_ns, k)[2 * m + 1] == Instr::<SerialLine>::Wait(bit_ns),
    decreases k,
{
    if k > 0 {
        lemma_data_samples_layout(bit_ns, (k - 1) as nat);
        let prev = data_samples(bit_ns, (k - 1) as nat);
        assert forall|m: int| 0 <= m < k implies #[trigger] data_samples(bit_ns, k)[2 * m]
            == Instr::Sample(SerialLine::Rx) by {
            if m < k - 1 {
                assert(data_samples(bit_ns, k)[2 * m] == prev[2 * m]);
            }
        }
        assert forall|m: int| 0 <= m < k implies #[trigger] data_samples(bit_ns, k)[2 * m + 1]
            == Instr::<SerialLine>::Wait(bit_ns) by {
            if m < k - 1 {
                assert(data_samples(bit_ns, k)[2 * m + 1] == prev[2 * m + 1]);
            }
        }
    }
}

/// A received frame is nineteen instructions: the wait for the start bit,
/// a bit and a half of delay, data sample `k` at position `2 + 2k` with one
/// bit of delay after each, and the stop-bit check last.
pub proof fn lemma_read_frame_layout(bit_ns: u32)
    ensures
        read_frame(bit_ns).len() == 19,
        read_frame(bit_ns)[0] == Instr::AwaitLow(SerialLine::Rx),
        read_frame(bit_ns)[1] == Instr::<SerialLine>::Wait((bit_ns + bit_ns / 2) as u32),
        forall|k: int| 0 <= k < 8 ==> #[trigger] read_frame(bit_ns)[2 + 2 * k] == Instr::Sample(SerialLine::Rx),
        forall|k: int| 0 <= k < 8 ==> #[trigger] read_frame(bit_ns)[3 + 2 * k] == Instr::<SerialLine>::Wait(bit_ns),
        read_frame(bit_ns)[18] == Instr::RequireHigh(SerialLine::Rx),
        forall|i: int|
            2 <= i < 18 ==> #[trigger] read_frame(bit_ns)[i] == if i % 2 == 0 {
                Instr::Sample(SerialLine::Rx)
            } else {
                Instr::<SerialLine>::Wait(bit_ns)
            },
{
    lemma_data_samples_layout(bit_ns, 8);
    let f = read_frame(bit_ns);
    assert forall|k: int| 0 <= k < 8 implies #[trigger] f[2 + 2 * k] == Instr::Sample(SerialLine::Rx) by {
        assert(f[2 + 2 * k] == data_samples(bit_ns, 8)[2 * k]);
    }
    assert forall|k: int| 0 <= k < 8 implies #[trigger] f[3 + 2 * k] == Instr::<SerialLine>::Wait(bit_ns) by {
        assert(f[3 + 2 * k] == data_samples(bit_ns, 8)[2 * k + 1]);
    }
    assert forall|i: int| 2 <= i < 18 implies #[trigger] f[i] == if i % 2 == 0 {
        Instr::Sample(SerialLine::Rx)
    } else {
        Instr::<SerialLine>::Wait(bit_ns)
    } by {
        let k = (i - 2) / 2;
        if i % 2 == 0 {
            assert(i == 2 + 2 * k);
        } else {
            assert(i == 3 + 2 * k);
        }
    }
}

/// What a read gives back of a write: when the eight data samples of a
/// received frame see the levels a sent frame of `b` holds in its data
/// slots, the received byte is `b`.
pub proof fn lemma_write_read_roundtrip(b: u8, bit_ns: u32)
    ensures
        lsb_first(
            Seq::new(
                8,
                |k: int|
                    match write_frame(b, bit_ns)[2 + 2 * k] {
                        Instr::Drive(_, level) => level,
                        _ => false,
                    },
            ),
        ) == b,
{
    lemma_write_frame_layout(b, bit_ns);
    let levels = Seq::new(
        8,
        |k: int|
            match write_frame(b, bit_ns)[2 + 2 * k] {
                Instr::Drive(_, level) => level,
                _ => false,
            },
    );
    lemma_lsb_first_bits(levels);
    let r = lsb_first(levels);
    assert forall|k: u8| k < 8 implies bit(r, k) == bit(b, k) by {
        assert(write_frame(b, bit_ns)[2 + 2 * (k as int)] == Instr::Drive(SerialLine::Tx, bit(b, k)));
        assert(levels[k as int] == bit(b, k));
    }
    lemma_bits_determine_byte(r, b);
}

proof fn lemma_read_frame_samples(bit_ns: u32, lo: int)
    requires
        1 <= lo <= 18,
    ensures
        straight_between(read_frame(bit_ns), lo, 18),
        samples_between(read_frame(bit_ns), lo, 18) == (18 - lo + (if lo % 2 == 0 {
            1int
        } else {
            0int
        })) / 2,
    decreases 18 - lo,
{
    lemma_read_frame_layout(bit_ns);
    let p = read_frame(bit_ns);
    if lo < 18 {
        lemma_read_frame_samples(bit_ns, lo + 1);
        if lo == 1 {
            assert(p[1] == Instr::<SerialLine>::Wait((bit_ns + bit_ns / 2) as u32));
        } else {
            assert(p[lo] == if lo % 2 == 0 {
                Instr::Sample(SerialLine::Rx)
            } else {
                Instr::<SerialLine>::Wait(bit_ns)
            });
        }
    }
}

/// Receiving a frame: after any number `idle` of high reads while waiting
/// for the start bit, one low read starts the frame; the next eight reads
/// are recorded as the data bits; the stop bit then ends the frame without
/// fault when it reads high, and with [`Fault::FrameFormat`] when it reads
/// low.
pub proof fn lemma_receive_frame(bit_ns: u32, idle: nat, data: Seq<bool>, stop: bool)
    requires
        data.len() == 8,
    ensures
        ({
            let answers = Seq::new(idle, |i: int| true) + seq![false] + data + seq![stop];
            let r = run_model(start_model(read_frame(bit_ns)), answers, idle + 19);
            &&& r.samples == data
            &&& stop ==> r.pc == 19 && r.fault is None
            &&& !stop ==> r.fault == Some(Fault::FrameFormat)
        }),
{
    let p = read_frame(bit_ns);
    lemma_read_frame_layout(bit_ns);
    let start = start_model(p);
    let rest = data + seq![stop];
    let answers = Seq::new(idle, |i: int| true) + seq![false] + data + seq![stop];
    assert(answers =~= Seq::new(idle, |i: int| true) + seq![false] + rest);
    lemma_run_await_low(start, idle, rest, 18);
    let m1 = advance(start);
    lemma_read_frame_samples(bit_ns, 1);
    lemma_run_straight_stretch(m1, rest, 18, 1);
    let m18 = SeqModel { pc: 18, samples: m1.samples + rest.take(8), ..m1 };
    assert(m1.samples + rest.take(8) =~= data);
    assert(rest.skip(8) =~= seq![stop]);
    let (m19, a) = next_model(m18);
    assert(a is ReadHigh);
    assert(seq![stop][0] == stop);
    reveal_with_fuel(run_model, 2);
    assert(run_model(m18, seq![stop], 1) == deliver_model(m19, stop));
}

/// A frame sent as `b` and received, on a line that holds each level the
/// sender drives while the receiver samples it, gives back `b`: the
/// receiver's eight data samples are the sender's data levels, the stop bit
/// is high, and the byte assembled least significant bit first is `b`.
pub proof fn lemma_frame_roundtrip(b: u8, bit_ns: u32, idle: nat)
    ensures
        ({
            let data = Seq::new(
                8,
                |k: int|
                    match write_frame(b, bit_ns)[2 + 2 * k] {
                        Instr::Drive(_, level) => level,
                        _ => false,
                    },
            );
            let stop = match write_frame(b, bit_ns)[18] {
                Instr::Drive(_, level) => level,
                _ => false,
            };
            let r = run_model(
                start_model(read_frame(bit_ns)),
                Seq::new(idle, |i: int| true) + seq![false] + data + seq![stop],
                idle + 19,
            );
            &&& r.fault is None
            &&& r.pc == 19
            &&& lsb_first(r.samples.subrange(0, 8)) == b
        }),
{
    let data = Seq::new(
        8,
        |k: int|
            match write_frame(b, bit_ns)[2 + 2 * k] {
                Instr::Drive(_, level) => level,
                _ => false,
            },
    );
    lemma_write_frame_layout(b, bit_ns);
    lemma_receive_frame(bit_ns, idle, data, true);
    lemma_write_read_roundtrip(b, bit_ns);
    assert(data.subrange(0, 8) =~= data);
}

/// Writing bytes sends one complete frame per byte, in order, twenty
/// instructions each: the start bit low, the eight data bits least
/// significant first, and the stop bit high, every level held for one bit
/// duration.
pub proof fn lemma_write_frames_layout(bytes: Seq<u8>, bit_ns: u32)
    ensures
        write_frames(bytes, bit_ns).len() == 20 * bytes.len(),
        forall|i: int|
            0 <= i < bytes.len() ==> #[trigger] write_frames(bytes, bit_ns)[20 * i] == Instr::Drive(
                SerialLine::Tx,
                false,
            ) && write_frames(bytes, bit_ns)[20 * i + 18] == Instr::Drive(SerialLine::Tx, true),
        forall|i: int, k: int|
            0 <= i < bytes.len() && 0 <= k < 8 ==> #[trigger] write_frames(bytes, bit_ns)[20 * i + 2 + 2 * k]
                == Instr::Drive(SerialLine::Tx, bit(bytes[i], k as u8)),
        forall|i: int, t: int|
            0 <= i < bytes.len() && 0 <= t < 10 ==> #[trigger] write_frames(bytes, bit_ns)[20 * i + 2 * t + 1]
                == Instr::<SerialLine>::Wait(bit_ns),
    decreases bytes.len(),
{
    if bytes.len() > 0 {
        let prefix = bytes.drop_last();
        lemma_write_frames_layout(prefix, bit_ns);
        lemma_write_frame_layout(bytes.last(), bit_ns);
        let prev = write_frames(prefix, bit_ns);
        let f = write_frame(bytes.last(), bit_ns);
        let w = write_frames(bytes, bit_ns);
        let n1 = prefix.len() as int;
        assert forall|i: int| 0 <= i < bytes.len() implies #[trigger] w[20 * i] == Instr::Drive(
            SerialLine::Tx,
            false,
        ) && w[20 * i + 18] == Instr::Drive(SerialLine::Tx, true) by {
            if i < n1 {
                assert(w[20 * i] == prev[20 * i]);
                assert(w[20 * i + 18] == prev[20 * i + 18]);
            } else {
                assert(w[20 * i] == f[0]);
                assert(w[20 * i + 18] == f[18]);
            }
        }
        assert forall|i: int, k: int| 0 <= i < bytes.len() && 0 <= k < 8 implies #[trigger] w[20 * i + 2 + 2
            * k] == Instr::Drive(SerialLine::Tx, bit(bytes[i], k as u8)) by {
            if i < n1 {
                assert(w[20 * i + 2 + 2 * k] == prev[20 * i + 2 + 2 * k]);
                assert(prefix[i] == bytes[i]);
            } else {
                assert(w[20 * i + 2 + 2 * k] == f[2 + 2 * k]);
            }
        }
        assert forall|i: int, t: int| 0 <= i < bytes.len() && 0 <= t < 10 implies #[trigger] w[20 * i + 2 * t
            + 1] == Instr::<SerialLine>::Wait(bit_ns) by {
            if i < n1 {
                assert(w[20 * i + 2 * t + 1] == prev[20 * i + 2 * t + 1]);
            } else {
                assert(w[20 * i + 2 * t + 1] == f[2 * t + 1]);
            }
        }
    }
}

} // verus!
