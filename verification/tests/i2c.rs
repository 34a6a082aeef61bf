use bitbang_hal_ng::i2c::{self, I2cBB, I2cLine, Operation};
use bitbang_hal_ng::machine::{Action, Fault, Instr, Sequencer};

#[derive(Debug, Clone, Copy, PartialEq, Eq)]
enum PinState {
    Low,
    High,
}

fn state(high: bool) -> PinState {
    if high {
        PinState::High
    } else {
        PinState::Low
    }
}

/// Pin transcript of a run.
struct Run {
    scl: Vec<PinState>,
    sda: Vec<PinState>,
    sda_reads: usize,
    samples: Vec<bool>,
    outcome: Result<(), Fault>,
}

/// Runs `program`; `is_high(n)` answers the `n`-th read of SDA as the
/// level of the line.
fn run(program: Vec<Instr<I2cLine>>, is_high: &dyn Fn(usize) -> bool) -> Run {
    let mut seq = Sequencer::new(program);
    let mut r = Run { scl: vec![], sda: vec![], sda_reads: 0, samples: vec![], outcome: Ok(()) };
    loop {
        match seq.next() {
            Action::Drive(I2cLine::Scl, h) => r.scl.push(state(h)),
            Action::Drive(I2cLine::Sda, h) => r.sda.push(state(h)),
            Action::Wait(_) => {}
            Action::ReadHigh(l) => {
                assert_eq!(l, I2cLine::Sda);
                let level = is_high(r.sda_reads);
                r.sda_reads += 1;
                seq.deliver(level);
            }
            Action::ReadLow(l) => {
                assert_eq!(l, I2cLine::Sda);
                let level = !is_high(r.sda_reads);
                r.sda_reads += 1;
                seq.deliver(level);
            }
            Action::Done => break,
            Action::Failed(f) => {
                r.outcome = Err(f);
                break;
            }
        }
    }
    r.samples = seq.samples().clone();
    r
}

/// A pin that always reads low: every acknowledge is seen, every data bit is 0.
fn always_low(_: usize) -> bool {
    false
}

fn bus() -> I2cBB<(), (), ()> {
    I2cBB::new((), (), (), 100_000)
}

/// The bytes each read operation received, in order.
fn read_buffers(ops: &[Operation], samples: &Vec<bool>) -> Vec<Vec<u8>> {
    i2c::read_results(ops, samples)
        .into_iter()
        .zip(ops)
        .filter(|(_, op)| matches!(op, Operation::Read(_)))
        .map(|(bytes, _)| bytes)
        .collect()
}

#[test]
fn test_raw_i2c_start_and_stop() {
    let i2c = bus();
    let mut program = i2c.raw_i2c_start();
    program.extend(i2c.raw_i2c_stop());
    let r = run(program, &always_low);
    assert_eq!(
        r.scl,
        vec![
            PinState::High, // start: scl high after sda released
            PinState::Low,  // start: scl low
            PinState::High, // stop: scl high
        ]
    );
    assert_eq!(
        r.sda,
        vec![
            PinState::High, // start: release sda while scl low
            PinState::Low,  // start: sda falls while scl high (START)
            PinState::Low,  // stop: ensure sda low while scl low
            PinState::High, // stop: sda rises while scl high (STOP)
        ]
    );
    assert_eq!(r.outcome, Ok(()));
}

#[test]
fn test_write_and_ack() {
    let i2c = bus();
    let r = run(i2c.i2c_write_byte(0b10101010), &always_low);
    let mut scl = vec![];
    for _ in 0..8 {
        scl.push(PinState::High);
        scl.push(PinState::Low);
    }
    assert_eq!(r.scl, scl);
    let mut sda = vec![];
    for bit in [1, 0, 1, 0, 1, 0, 1, 0] {
        sda.push(if bit == 1 { PinState::High } else { PinState::Low });
        sda.push(PinState::Low);
    }
    assert_eq!(r.sda, sda);
    assert_eq!(r.sda_reads, 0);
}

#[test]
fn test_i2c_trait_write() {
    let i2c = bus();
    let ops = [Operation::Write(vec![0xAB])];
    let r = run(i2c.transaction(0x50, &ops), &always_low);
    assert_eq!(r.outcome, Ok(()));
    let r = run(i2c.transaction(0x50, &ops), &always_low);
    assert_eq!(r.outcome, Ok(()));
}

#[test]
fn test_raw_slave_access() {
    let i2c = bus();
    // The pin reads low, so acknowledge checks pass and read bytes are zero.
    let mut program = i2c.raw_i2c_start();
    program.extend(i2c.raw_write_to_slave(&[0xDE, 0xAD]));
    program.extend(i2c.raw_read_from_slave(2));
    program.extend(i2c.raw_i2c_stop());
    let r = run(program, &always_low);
    assert_eq!(r.outcome, Ok(()));
    let buf = i2c::received(&r.samples, 2);
    assert_eq!(buf, [0, 0]);
}

#[test]
fn test_i2c_write_read() {
    let i2c = bus();
    // write followed by read: repeated start in between
    let ops = [Operation::Write(vec![0x01]), Operation::Read(2)];
    let r = run(i2c.transaction(0x50, &ops), &always_low);
    assert_eq!(r.outcome, Ok(()));
    let bufs = read_buffers(&ops, &r.samples);
    assert_eq!(bufs, vec![vec![0, 0]]);
}

#[test]
fn i2c_half_period_from_frequency() {
    assert_eq!(bus().half_period_ns(), 5_000);
    assert_eq!(I2cBB::new((), (), (), 400_000).half_period_ns(), 1_250);
    assert_eq!(I2cBB::new((), (), (), 3).half_period_ns(), 166_666_666);
    assert_eq!(bus().free(), ((), (), ()));
}

#[test]
fn i2c_missing_ack_stops_with_noack() {
    let i2c = bus();
    let ops = [Operation::Write(vec![0x12, 0x34])];
    // SDA floats high: the address byte is not acknowledged.
    let r = run(i2c.transaction(0x50, &ops), &|_| true);
    assert_eq!(r.outcome, Err(Fault::NoAck));
    // Only the START, the address byte and its acknowledge slot happened:
    // no data byte and no STOP.
    assert_eq!(r.sda_reads, 1);
    assert_eq!(r.scl.len(), 2 + 16 + 2);
}

#[test]
fn i2c_ack_failure_after_first_data_byte() {
    let i2c = bus();
    let ops = [Operation::Write(vec![0x12, 0x34])];
    // Address acked (read 0), first data byte not acked (read 1).
    let r = run(i2c.transaction(0x50, &ops), &|n| n >= 1);
    assert_eq!(r.outcome, Err(Fault::NoAck));
    assert_eq!(r.sda_reads, 2);
}

#[test]
fn i2c_empty_transaction_is_silent() {
    let i2c = bus();
    let p = i2c.transaction(0x50, &[]);
    assert!(p.is_empty());
}

/// The address byte of `addr` in the given direction, as sent on SDA.
fn sent_bytes(sda_writes: &[Instr<I2cLine>]) -> Vec<u8> {
    sda_writes
        .chunks(6)
        .take(8)
        .fold(vec![0u8], |mut acc, c| {
            if let Instr::Drive(I2cLine::Sda, h) = c[0] {
                acc[0] = (acc[0] << 1) | h as u8;
            }
            acc
        })
}

#[test]
fn i2c_address_byte_carries_direction() {
    let i2c = bus();
    let w = i2c.transaction(0x50, &[Operation::Write(vec![])]);
    assert_eq!(sent_bytes(&w[8..56]), vec![0xA0]);
    let r = i2c.transaction(0x50, &[Operation::Read(1)]);
    assert_eq!(sent_bytes(&r[8..56]), vec![0xA1]);
}

#[test]
fn i2c_repeated_start_only_on_direction_change() {
    let i2c = bus();
    let count_starts = |p: &[Instr<I2cLine>]| {
        p.windows(3)
            .filter(|w| {
                w[0] == Instr::Drive(I2cLine::Scl, true)
                    && w[2] == Instr::Drive(I2cLine::Sda, false)
                    && matches!(w[1], Instr::Wait(_))
            })
            .count()
    };
    let same_dir = i2c.transaction(0x10, &[Operation::Write(vec![1]), Operation::Write(vec![2])]);
    assert_eq!(count_starts(&same_dir), 1);
    let changes = i2c.transaction(
        0x10,
        &[Operation::Write(vec![1]), Operation::Read(1), Operation::Read(1), Operation::Write(vec![2])],
    );
    assert_eq!(count_starts(&changes), 3);
}

#[test]
fn i2c_nack_only_last_byte_of_read_run() {
    let i2c = bus();
    let ops = [Operation::Read(2), Operation::Read(1), Operation::Write(vec![7])];
    let p = i2c.transaction(0x20, &ops);
    // The master's acknowledge level is the SDA drive that follows the 8
    // samples of each read byte.
    let mut acks = vec![];
    let mut samples_seen = 0;
    for (i, ins) in p.iter().enumerate() {
        if *ins == Instr::Sample(I2cLine::Sda) {
            samples_seen += 1;
            if samples_seen % 8 == 0 {
                if let Instr::Drive(I2cLine::Sda, h) = p[i + 3] {
                    acks.push(!h);
                }
            }
        }
    }
    assert_eq!(acks, vec![true, true, false]);
}

#[test]
fn i2c_read_bits_msb_first() {
    let i2c = bus();
    let pattern = [true, false, true, true, false, false, true, false];
    let r = run(i2c.raw_read_from_slave(1), &|n| pattern[n]);
    assert_eq!(i2c::received(&r.samples, 1), vec![0b1011_0010]);
}

#[test]
fn i2c_reads_land_in_operation_order() {
    let i2c = bus();
    let ops = [Operation::Read(1), Operation::Write(vec![5]), Operation::Read(2)];
    // Data answers: 0x81, then 0x0F, 0xF0. Acknowledge reads answer low.
    let data: Vec<bool> = [0x81u8, 0x0F, 0xF0]
        .iter()
        .flat_map(|b| (0..8).rev().map(move |k| (b >> k) & 1 == 1))
        .collect();
    let program = i2c.transaction(0x33, &ops);
    let mut seq = Sequencer::new(program);
    let mut next_data = 0;
    loop {
        match seq.next() {
            Action::ReadHigh(_) => {
                seq.deliver(data[next_data]);
                next_data += 1;
            }
            Action::ReadLow(_) => seq.deliver(true),
            Action::Done => break,
            Action::Failed(f) => panic!("unexpected {:?}", f),
            _ => {}
        }
    }
    assert_eq!(next_data, 24);
    let bufs = read_buffers(&ops, seq.samples());
    assert_eq!(bufs, vec![vec![0x81], vec![0x0F, 0xF0]]);
}

#[test]
fn i2c_sda_changes_only_while_scl_low_except_start_and_stop() {
    let i2c = bus();
    let ops = [Operation::Write(vec![0x5A, 0xC3]), Operation::Read(2), Operation::Write(vec![0x01])];
    let p = i2c.transaction(0x42, &ops);
    let mut scl_high = false;
    let mut sda_high = true;
    let mut starts = 0;
    let mut stops = 0;
    for ins in &p {
        match *ins {
            Instr::Drive(I2cLine::Scl, h) => scl_high = h,
            Instr::Drive(I2cLine::Sda, h) => {
                if scl_high && h != sda_high {
                    if h {
                        stops += 1;
                    } else {
                        starts += 1;
                    }
                }
                sda_high = h;
            }
            _ => {}
        }
    }
    assert_eq!(starts, 3);
    assert_eq!(stops, 1);
    assert!(!scl_high || sda_high);
}

/// The master's acknowledge level after each read byte, in order.
fn master_acks(p: &[Instr<I2cLine>]) -> Vec<bool> {
    let mut acks = vec![];
    let mut samples_seen = 0;
    for (i, ins) in p.iter().enumerate() {
        if *ins == Instr::Sample(I2cLine::Sda) {
            samples_seen += 1;
            if samples_seen % 8 == 0 {
                if let Instr::Drive(I2cLine::Sda, h) = p[i + 3] {
                    acks.push(!h);
                }
            }
        }
    }
    acks
}

#[test]
fn i2c_empty_reads_do_not_extend_a_read_run() {
    let i2c = bus();
    // the byte read before an empty read is the last of its run: not acknowledged
    let p = i2c.transaction(0x20, &[Operation::Read(1), Operation::Read(0)]);
    assert_eq!(master_acks(&p), vec![false]);
    // an empty read between two reads does not end the run
    let p = i2c.transaction(0x20, &[Operation::Read(1), Operation::Read(0), Operation::Read(1)]);
    assert_eq!(master_acks(&p), vec![true, false]);
    // a write ends the run
    let p = i2c.transaction(0x20, &[Operation::Read(1), Operation::Read(0), Operation::Write(vec![1]), Operation::Read(1)]);
    assert_eq!(master_acks(&p), vec![false, false]);
}

#[test]
fn i2c_read_results_one_buffer_per_operation() {
    let ops = [Operation::Read(1), Operation::Write(vec![9, 9]), Operation::Read(0), Operation::Read(2)];
    let samples: Vec<bool> = [0xA5u8, 0x01, 0xFE]
        .iter()
        .flat_map(|b| (0..8).rev().map(move |k| (b >> k) & 1 == 1))
        .collect();
    let results = i2c::read_results(&ops, &samples);
    assert_eq!(results, vec![vec![0xA5], vec![], vec![], vec![0x01, 0xFE]]);
}

#[test]
fn i2c_start_stops_at_first_pin_error() {
    let i2c = bus();
    let mut seq = Sequencer::new(i2c.raw_i2c_start());
    // the first drive (SDA high) and its wait succeed; the SCL drive fails
    assert_eq!(seq.next(), Action::Drive(I2cLine::Sda, true));
    assert_eq!(seq.next(), Action::Wait(5_000));
    assert_eq!(seq.next(), Action::Drive(I2cLine::Scl, true));
    seq.fail();
    assert_eq!(seq.next(), Action::Failed(Fault::Pin));
    assert_eq!(seq.next(), Action::Failed(Fault::Pin));
}
